//! Text as sequences of characters: the trimming, line splitting and searching that
//! the picotool output parsers are specified with, and their executable counterparts.
use vstd::prelude::*;
use vstd::string::StrSliceExecFns;

verus! {

/// Unicode `White_Space`, the set that `str::trim` and `split_whitespace` remove.
pub open spec fn is_ws(c: char) -> bool {
    let u = c as u32;
    (0x09 <= u <= 0x0d) || u == 0x20 || u == 0x85 || u == 0xa0 || u == 0x1680 || (0x2000 <= u
        <= 0x200a) || u == 0x2028 || u == 0x2029 || u == 0x202f || u == 0x205f || u == 0x3000
}

/// `s` without its leading whitespace.
pub open spec fn trim_start(s: Seq<char>) -> Seq<char>
    decreases s.len(),
{
    if s.len() > 0 && is_ws(s[0]) {
        trim_start(s.drop_first())
    } else {
        s
    }
}

/// `s` without its trailing whitespace.
pub open spec fn trim_end(s: Seq<char>) -> Seq<char>
    decreases s.len(),
{
    if s.len() > 0 && is_ws(s.last()) {
        trim_end(s.drop_last())
    } else {
        s
    }
}

/// `s` without leading and trailing whitespace, as `str::trim`.
pub open spec fn trim(s: Seq<char>) -> Seq<char> {
    trim_end(trim_start(s))
}

/// The first index `j >= i` at which `s` holds `c`, or `s.len()` when there is none.
pub open spec fn find_char(s: Seq<char>, c: char, i: int) -> int
    decreases s.len() - i,
{
    if i >= s.len() {
        s.len() as int
    } else if s[i] == c {
        i
    } else {
        find_char(s, c, i + 1)
    }
}

/// The line that starts at `i`, as `str::lines` yields it: up to the next `'\n'`,
/// without the `'\r'` of a `"\r\n"` ending.
pub open spec fn line_at(s: Seq<char>, i: int) -> Seq<char> {
    let e = find_char(s, '\n', i);
    if e < s.len() && e > i && s[e - 1] == '\r' {
        s.subrange(i, e - 1)
    } else {
        s.subrange(i, e)
    }
}

/// The lines of `s` from index `i` on, as `str::lines` yields them.
pub open spec fn lines_from(s: Seq<char>, i: int) -> Seq<Seq<char>>
    decreases s.len() + 1 - i,
{
    if i < 0 || i >= s.len() {
        Seq::empty()
    } else {
        proof {
            lemma_find_char_bounds(s, '\n', i);
        }
        seq![line_at(s, i)] + lines_from(s, find_char(s, '\n', i) + 1)
    }
}

/// `find_char` lies between its start and the end of `s`, skips no occurrence of
/// `c`, and where it is below the end, `c` stands there.
pub proof fn lemma_find_char_bounds(s: Seq<char>, c: char, i: int)
    requires
        0 <= i <= s.len(),
    ensures
        i <= find_char(s, c, i) <= s.len(),
        find_char(s, c, i) < s.len() ==> s[find_char(s, c, i)] == c,
        forall|k: int| i <= k < find_char(s, c, i) ==> s[k] != c,
    decreases s.len() - i,
{
    if i < s.len() && s[i] != c {
        lemma_find_char_bounds(s, c, i + 1);
    }
}

/// The lines of `s`, as `str::lines` yields them.
pub open spec fn lines(s: Seq<char>) -> Seq<Seq<char>> {
    lines_from(s, 0)
}

/// The code of `c` with ASCII upper-case letters mapped to lower case.
pub open spec fn ascii_lower(c: char) -> u32 {
    if 'A' <= c <= 'Z' {
        ((c as u32) + 32) as u32
    } else {
        c as u32
    }
}

/// `str::eq_ignore_ascii_case`.
pub open spec fn eq_ignore_ascii_case(a: Seq<char>, b: Seq<char>) -> bool {
    &&& a.len() == b.len()
    &&& forall|i: int| 0 <= i < a.len() ==> ascii_lower(#[trigger] a[i]) == ascii_lower(b[i])
}

/// `str::split_once` on a character: the parts before and after its first occurrence.
pub open spec fn split_once(s: Seq<char>, c: char) -> Option<(Seq<char>, Seq<char>)> {
    let j = find_char(s, c, 0);
    if j < s.len() {
        Some((s.take(j), s.skip(j + 1)))
    } else {
        None
    }
}

/// `p` occurs in `s` at index `j`.
pub open spec fn occurs_at(s: Seq<char>, p: Seq<char>, j: int) -> bool {
    0 <= j && j + p.len() <= s.len() && s.subrange(j, j + p.len()) == p
}

/// `str::starts_with` with a string pattern.
pub open spec fn starts_with(s: Seq<char>, p: Seq<char>) -> bool {
    occurs_at(s, p, 0)
}

/// `str::contains` with a string pattern.
pub open spec fn contains(s: Seq<char>, p: Seq<char>) -> bool {
    exists|j: int| occurs_at(s, p, j)
}

/// The first index `j >= i` at which `p` occurs in `s`, or `s.len()` when it does
/// not occur from `i` on.
pub open spec fn find_str(s: Seq<char>, p: Seq<char>, i: int) -> int
    decreases s.len() - i,
{
    if i >= s.len() || i < 0 {
        s.len() as int
    } else if occurs_at(s, p, i) {
        i
    } else {
        find_str(s, p, i + 1)
    }
}

/// The pieces of `s` from `i` on between the occurrences of a non-empty `p`,
/// as `str::split` yields them.
pub open spec fn split_from(s: Seq<char>, p: Seq<char>, i: int) -> Seq<Seq<char>>
    decreases s.len() - i,
{
    let j = find_str(s, p, i);
    if p.len() == 0 || i < 0 || i > s.len() || j >= s.len() {
        seq![s.subrange(i, s.len() as int)]
    } else {
        proof {
            lemma_find_str_bounds(s, p, i);
        }
        seq![s.subrange(i, j)] + split_from(s, p, j + p.len())
    }
}

/// `find_str` lies between its start and the end of `s`; where it is below the
/// end, `p` occurs there.
pub proof fn lemma_find_str_bounds(s: Seq<char>, p: Seq<char>, i: int)
    requires
        0 <= i,
    ensures
        i <= find_str(s, p, i) || i > s.len(),
        find_str(s, p, i) <= s.len(),
        find_str(s, p, i) < s.len() ==> occurs_at(s, p, find_str(s, p, i)),
        forall|k: int| i <= k < find_str(s, p, i) ==> !occurs_at(s, p, k),
    decreases s.len() - i,
{
    if i < s.len() && !occurs_at(s, p, i) {
        lemma_find_str_bounds(s, p, i + 1);
    }
}

/// `str::split` with a non-empty string pattern.
pub open spec fn split_str(s: Seq<char>, p: Seq<char>) -> Seq<Seq<char>> {
    split_from(s, p, 0)
}

/// The first index `j >= i` that does not hold white space, or `s.len()`.
pub open spec fn skip_ws(s: Seq<char>, i: int) -> int
    decreases s.len() - i,
{
    if i >= s.len() {
        s.len() as int
    } else if is_ws(s[i]) {
        skip_ws(s, i + 1)
    } else {
        i
    }
}

/// The first index `j >= i` that holds white space, or `s.len()`.
pub open spec fn skip_word(s: Seq<char>, i: int) -> int
    decreases s.len() - i,
{
    if i >= s.len() {
        s.len() as int
    } else if !is_ws(s[i]) {
        skip_word(s, i + 1)
    } else {
        i
    }
}

/// Bounds and meaning of `skip_ws` and `skip_word`.
pub proof fn lemma_skip_bounds(s: Seq<char>, i: int)
    requires
        0 <= i <= s.len(),
    ensures
        i <= skip_ws(s, i) <= s.len(),
        i <= skip_word(s, i) <= s.len(),
        skip_ws(s, i) < s.len() ==> !is_ws(s[skip_ws(s, i)]),
        skip_word(s, i) < s.len() ==> is_ws(s[skip_word(s, i)]),
        forall|k: int| i <= k < skip_ws(s, i) ==> is_ws(s[k]),
        forall|k: int| i <= k < skip_word(s, i) ==> !is_ws(s[k]),
    decreases s.len() - i,
{
    if i < s.len() {
        lemma_skip_bounds(s, i + 1);
    }
}

/// The white-space separated words of `s` from index `i` on.
pub open spec fn words_from(s: Seq<char>, i: int) -> Seq<Seq<char>>
    decreases s.len() + 1 - i,
{
    if i < 0 || i > s.len() {
        Seq::empty()
    } else {
        let a = skip_ws(s, i);
        if a >= s.len() {
            Seq::empty()
        } else {
            proof {
                lemma_skip_bounds(s, i);
                lemma_skip_bounds(s, a);
            }
            seq![s.subrange(a, skip_word(s, a))] + words_from(s, skip_word(s, a))
        }
    }
}

/// The words of `s`, as `str::split_whitespace` yields them.
pub open spec fn words(s: Seq<char>) -> Seq<Seq<char>> {
    words_from(s, 0)
}

/// For each pair of consecutive words whose first is `key`, the second:
/// what `windows(2)` filtered on `key` yields.
pub open spec fn followers(ws: Seq<Seq<char>>, key: Seq<char>) -> Seq<Seq<char>>
    decreases ws.len(),
{
    if ws.len() < 2 {
        Seq::empty()
    } else {
        let rest = followers(ws.drop_last(), key);
        if ws[ws.len() - 2] == key {
            rest.push(ws.last())
        } else {
            rest
        }
    }
}

/// `str::trim_end_matches` with one character.
pub open spec fn trim_end_char(s: Seq<char>, c: char) -> Seq<char>
    decreases s.len(),
{
    if s.len() > 0 && s.last() == c {
        trim_end_char(s.drop_last(), c)
    } else {
        s
    }
}

/// `str::trim_start_matches("0x")`: every leading `"0x"` removed.
pub open spec fn trim_start_0x(s: Seq<char>) -> Seq<char>
    decreases s.len(),
{
    if s.len() >= 2 && s[0] == '0' && s[1] == 'x' {
        trim_start_0x(s.skip(2))
    } else {
        s
    }
}

/// The value of a hexadecimal digit of either case.
pub open spec fn hex_digit_value(c: char) -> Option<nat> {
    if '0' <= c <= '9' {
        Some((c as u32 - '0' as u32) as nat)
    } else if 'a' <= c <= 'f' {
        Some((c as u32 - 'a' as u32 + 10) as nat)
    } else if 'A' <= c <= 'F' {
        Some((c as u32 - 'A' as u32 + 10) as nat)
    } else {
        None
    }
}

/// The value of a string of hexadecimal digits (0 for none), or `None` when a
/// character is not a hexadecimal digit.
pub open spec fn hex_digits_value(s: Seq<char>) -> Option<nat>
    decreases s.len(),
{
    if s.len() == 0 {
        Some(0)
    } else {
        match (hex_digits_value(s.drop_last()), hex_digit_value(s.last())) {
            (Some(v), Some(d)) => Some(v * 16 + d),
            _ => None,
        }
    }
}

/// `u32::from_str_radix(s, 16)`: an optional `'+'`, then at least one hexadecimal
/// digit, with a value that fits in 32 bits.
pub open spec fn from_str_radix16(s: Seq<char>) -> Option<u32> {
    let digits = if s.len() >= 2 && s[0] == '+' {
        s.drop_first()
    } else {
        s
    };
    if digits.len() == 0 {
        None
    } else {
        match hex_digits_value(digits) {
            Some(v) => if v <= u32::MAX {
                Some(v as u32)
            } else {
                None
            },
            None => None,
        }
    }
}

/// Whether `c` is Unicode white space.
pub fn is_whitespace(c: char) -> (r: bool)
    ensures
        r == is_ws(c),
{
    let u = c as u32;
    (0x09 <= u && u <= 0x0d) || u == 0x20 || u == 0x85 || u == 0xa0 || u == 0x1680 || (0x2000 <= u
        && u <= 0x200a) || u == 0x2028 || u == 0x2029 || u == 0x202f || u == 0x205f || u == 0x3000
}

/// The characters of `s`.
pub fn chars_of(s: &str) -> (v: Vec<char>)
    ensures
        v@ == s@,
{
    let mut v: Vec<char> = Vec::new();
    for c in it: s.chars()
        invariant
            v@ == it.seq().take(it.index()),
            it.seq() == s@,
    {
        v.push(c);
    }
    v
}

/// Whether the characters `cs[a..b]` spell `p`.
pub fn range_eq(cs: &Vec<char>, a: usize, b: usize, p: &Vec<char>) -> (r: bool)
    requires
        a <= b <= cs@.len(),
    ensures
        r == (cs@.subrange(a as int, b as int) == p@),
{
    if b - a != p.len() {
        return false;
    }
    let mut i: usize = 0;
    while i < p.len()
        invariant
            a <= b <= cs@.len(),
            b - a == p@.len(),
            i <= p@.len(),
            forall|k: int| 0 <= k < i ==> cs@[a + k] == p@[k],
        decreases p@.len() - i,
    {
        if cs[a + i] != p[i] {
            assert(cs@.subrange(a as int, b as int)[i as int] != p@[i as int]);
            return false;
        }
        i = i + 1;
    }
    assert(cs@.subrange(a as int, b as int) =~= p@);
    true
}

/// Whether `p` occurs in `cs` at index `j`.
pub fn occurs_at_exec(cs: &Vec<char>, j: usize, p: &Vec<char>) -> (r: bool)
    ensures
        r == occurs_at(cs@, p@, j as int),
{
    if j > cs.len() || cs.len() - j < p.len() {
        return false;
    }
    range_eq(cs, j, j + p.len(), p)
}

/// The first index from `i` on that does not hold white space.
pub fn skip_ws_exec(cs: &Vec<char>, i: usize) -> (j: usize)
    requires
        i <= cs@.len(),
    ensures
        j == skip_ws(cs@, i as int),
        i <= j <= cs@.len(),
{
    proof {
        lemma_skip_bounds(cs@, i as int);
    }
    let mut j = i;
    while j < cs.len() && is_whitespace(cs[j])
        invariant
            i <= j <= cs@.len(),
            skip_ws(cs@, i as int) == skip_ws(cs@, j as int),
        decreases cs@.len() - j,
    {
        j = j + 1;
    }
    j
}

/// The first index from `i` on that holds white space.
pub fn skip_word_exec(cs: &Vec<char>, i: usize) -> (j: usize)
    requires
        i <= cs@.len(),
    ensures
        j == skip_word(cs@, i as int),
        i <= j <= cs@.len(),
{
    proof {
        lemma_skip_bounds(cs@, i as int);
    }
    let mut j = i;
    while j < cs.len() && !is_whitespace(cs[j])
        invariant
            i <= j <= cs@.len(),
            skip_word(cs@, i as int) == skip_word(cs@, j as int),
        decreases cs@.len() - j,
    {
        j = j + 1;
    }
    j
}

/// The bounds of the words of `cs`, in order.
pub fn word_bounds(cs: &Vec<char>) -> (b: Vec<(usize, usize)>)
    ensures
        b@.len() == words(cs@).len(),
        forall|k: int|
            0 <= k < b@.len() ==> {
                &&& (#[trigger] b@[k]).0 <= b@[k].1 <= cs@.len()
                &&& cs@.subrange(b@[k].0 as int, b@[k].1 as int) == words(cs@)[k]
            },
{
    let mut b: Vec<(usize, usize)> = Vec::new();
    let ghost mut acc: Seq<Seq<char>> = Seq::empty();
    let mut pos: usize = 0;
    while pos < cs.len()
        invariant
            pos <= cs@.len(),
            acc.len() == b@.len(),
            words(cs@) == acc + words_from(cs@, pos as int),
            forall|k: int|
                0 <= k < b@.len() ==> {
                    &&& (#[trigger] b@[k]).0 <= b@[k].1 <= cs@.len()
                    &&& cs@.subrange(b@[k].0 as int, b@[k].1 as int) == acc[k]
                },
        decreases cs@.len() - pos,
    {
        let a = skip_ws_exec(cs, pos);
        if a >= cs.len() {
            assert(words_from(cs@, pos as int) =~= Seq::<Seq<char>>::empty());
            proof {
                lemma_skip_bounds(cs@, cs@.len() as int);
            }
            assert(words_from(cs@, cs@.len() as int) =~= Seq::<Seq<char>>::empty());
            pos = cs.len();
        } else {
            let e = skip_word_exec(cs, a);
            proof {
                lemma_skip_bounds(cs@, a as int);
                let w = cs@.subrange(a as int, e as int);
                assert(words_from(cs@, pos as int) == seq![w] + words_from(cs@, e as int));
                assert(acc + (seq![w] + words_from(cs@, e as int)) =~= acc.push(w) + words_from(
                    cs@,
                    e as int,
                ));
                acc = acc.push(w);
            }
            b.push((a, e));
            pos = e;
        }
    }
    proof {
        lemma_skip_bounds(cs@, pos as int);
        assert(words_from(cs@, pos as int) =~= Seq::<Seq<char>>::empty());
        assert(acc + Seq::<Seq<char>>::empty() =~= acc);
    }
    b
}

/// The end of `cs[a..b]` once every trailing `c` is removed.
pub fn trim_end_char_range(cs: &Vec<char>, a: usize, b: usize, c: char) -> (e: usize)
    requires
        a <= b <= cs@.len(),
    ensures
        a <= e <= b,
        cs@.subrange(a as int, e as int) == trim_end_char(cs@.subrange(a as int, b as int), c),
{
    let mut e = b;
    while e > a && cs[e - 1] == c
        invariant
            a <= e <= b <= cs@.len(),
            trim_end_char(cs@.subrange(a as int, b as int), c) == trim_end_char(
                cs@.subrange(a as int, e as int),
                c,
            ),
        decreases e - a,
    {
        assert(cs@.subrange(a as int, e as int).drop_last() =~= cs@.subrange(
            a as int,
            e as int - 1,
        ));
        e = e - 1;
    }
    e
}

/// The start of `cs[a..b]` once every leading `"0x"` is removed.
pub fn trim_start_0x_range(cs: &Vec<char>, a: usize, b: usize) -> (s: usize)
    requires
        a <= b <= cs@.len(),
    ensures
        a <= s <= b,
        cs@.subrange(s as int, b as int) == trim_start_0x(cs@.subrange(a as int, b as int)),
{
    let mut s = a;
    while b - s >= 2 && cs[s] == '0' && cs[s + 1] == 'x'
        invariant
            a <= s <= b <= cs@.len(),
            trim_start_0x(cs@.subrange(a as int, b as int)) == trim_start_0x(
                cs@.subrange(s as int, b as int),
            ),
        decreases b - s,
    {
        assert(cs@.subrange(s as int, b as int).skip(2) =~= cs@.subrange(s as int + 2, b as int));
        s = s + 2;
    }
    s
}

/// `u32::from_str_radix(cs[a..b], 16)`.
pub fn from_str_radix16_range(cs: &Vec<char>, a: usize, b: usize) -> (r: Option<u32>)
    requires
        a <= b <= cs@.len(),
    ensures
        r == from_str_radix16(cs@.subrange(a as int, b as int)),
{
    let ghost s = cs@.subrange(a as int, b as int);
    let mut start = a;
    if b - a >= 2 && cs[a] == '+' {
        start = a + 1;
    }
    let ghost digits = cs@.subrange(start as int, b as int);
    assert(digits =~= (if s.len() >= 2 && s[0] == '+' { s.drop_first() } else { s }));
    if start == b {
        return None;
    }
    let mut acc: u64 = 0;
    let mut over = false;
    let mut i = start;
    while i < b
        invariant
            a <= start <= i <= b <= cs@.len(),
            digits == cs@.subrange(start as int, b as int),
            s == cs@.subrange(a as int, b as int),
            digits == (if s.len() >= 2 && s[0] == '+' { s.drop_first() } else { s }),
            hex_digits_value(cs@.subrange(start as int, i as int)) is Some,
            !over ==> acc as nat == hex_digits_value(cs@.subrange(start as int, i as int))->0,
            over ==> hex_digits_value(cs@.subrange(start as int, i as int))->0 > u32::MAX,
            acc <= u32::MAX,
        decreases b - i,
    {
        let c = cs[i];
        let d: u64 = if '0' <= c && c <= '9' {
            (c as u32 - '0' as u32) as u64
        } else if 'a' <= c && c <= 'f' {
            (c as u32 - 'a' as u32 + 10) as u64
        } else if 'A' <= c && c <= 'F' {
            (c as u32 - 'A' as u32 + 10) as u64
        } else {
            assert(cs@.subrange(start as int, i as int + 1).drop_last() =~= cs@.subrange(
                start as int,
                i as int,
            ));
            assert(hex_digit_value(cs@.subrange(start as int, i as int + 1).last()) is None);
            assert(hex_digits_value(cs@.subrange(start as int, i as int + 1)) is None);
            assert(digits.take((i - start) as int + 1) =~= cs@.subrange(start as int, i as int + 1));
            proof {
                lemma_hex_value_none_extends(digits, (i - start) as int + 1);
            }
            return None;
        };
        assert(cs@.subrange(start as int, i as int + 1).drop_last() =~= cs@.subrange(
            start as int,
            i as int,
        ));
        if !over {
            let next = acc * 16 + d;
            if next > u32::MAX as u64 {
                over = true;
            } else {
                acc = next;
            }
        }
        i = i + 1;
    }
    assert(cs@.subrange(start as int, b as int) =~= digits);
    if over {
        None
    } else {
        Some(acc as u32)
    }
}

/// Once a prefix holds a non-digit, so does the whole.
pub proof fn lemma_hex_value_none_extends(s: Seq<char>, n: int)
    requires
        0 <= n <= s.len(),
        hex_digits_value(s.take(n)) is None,
    ensures
        hex_digits_value(s) is None,
    decreases s.len() - n,
{
    if n < s.len() {
        assert(s.take(n + 1).drop_last() =~= s.take(n));
        lemma_hex_value_none_extends(s, n + 1);
    } else {
        assert(s.take(n) =~= s);
    }
}

/// `b` holds, in order, the bounds of the words of `cs`.
pub open spec fn are_word_bounds(cs: Seq<char>, b: Seq<(usize, usize)>) -> bool {
    &&& b.len() == words(cs).len()
    &&& forall|k: int|
        0 <= k < b.len() ==> {
            &&& (#[trigger] b[k]).0 <= b[k].1 <= cs.len()
            &&& cs.subrange(b[k].0 as int, b[k].1 as int) == words(cs)[k]
        }
}

/// The indices of the words that follow a word spelling `key`, in order.
pub fn follower_indices(cs: &Vec<char>, b: &Vec<(usize, usize)>, key: &Vec<char>) -> (idx: Vec<
    usize,
>)
    requires
        are_word_bounds(cs@, b@),
    ensures
        idx@.len() == followers(words(cs@), key@).len(),
        forall|j: int|
            0 <= j < idx@.len() ==> {
                &&& (#[trigger] idx@[j]) < b@.len()
                &&& words(cs@)[idx@[j] as int] == followers(words(cs@), key@)[j]
            },
{
    let ghost ws = words(cs@);
    let mut idx: Vec<usize> = Vec::new();
    let mut k: usize = 1;
    if b.len() < 2 {
        assert(ws.len() < 2);
        return idx;
    }
    assert(ws.take(1).len() < 2);
    while k < b.len()
        invariant
            are_word_bounds(cs@, b@),
            ws == words(cs@),
            1 <= k <= b@.len(),
            idx@.len() == followers(ws.take(k as int), key@).len(),
            forall|j: int|
                0 <= j < idx@.len() ==> {
                    &&& (#[trigger] idx@[j]) < k
                    &&& ws[idx@[j] as int] == followers(ws.take(k as int), key@)[j]
                },
        decreases b@.len() - k,
    {
        let (p0, p1) = b[k - 1];
        let hit = range_eq(cs, p0, p1, key);
        assert(ws.take(k as int + 1).drop_last() =~= ws.take(k as int));
        assert(ws.take(k as int + 1)[k - 1] == ws[k - 1]);
        if hit {
            idx.push(k);
        }
        k = k + 1;
    }
    assert(ws.take(b@.len() as int) =~= ws);
    idx
}

/// Whether two strings hold the same characters.
pub fn str_eq(a: &str, b: &str) -> (r: bool)
    ensures
        r == (a@ == b@),
{
    let ca = chars_of(a);
    let cb = chars_of(b);
    let r = range_eq(&ca, 0, ca.len(), &cb);
    assert(ca@.subrange(0, ca@.len() as int) =~= ca@);
    r
}

/// The property named `label` on one line: the line trimmed and split at its first
/// colon, the trimmed key equal to `label` ignoring ASCII case, the trimmed value.
pub open spec fn line_property(line: Seq<char>, label: Seq<char>) -> Option<Seq<char>> {
    match split_once(trim(line), ':') {
        Some((k, v)) => if eq_ignore_ascii_case(trim(k), label) {
            Some(trim(v))
        } else {
            None
        },
        None => None,
    }
}

/// The property named `label` on the first of `ls` that has it.
pub open spec fn first_property(ls: Seq<Seq<char>>, label: Seq<char>) -> Option<Seq<char>>
    decreases ls.len(),
{
    if ls.len() == 0 {
        None
    } else {
        match line_property(ls[0], label) {
            Some(v) => Some(v),
            None => first_property(ls.drop_first(), label),
        }
    }
}

/// The value of the first `label: value` line of `text` (label compared ignoring
/// ASCII case, both sides trimmed).
pub open spec fn spec_property(text: Seq<char>, label: Seq<char>) -> Option<Seq<char>> {
    first_property(lines(text), label)
}

/// The first index from `i` on that holds `c`.
pub fn find_char_from(cs: &Vec<char>, c: char, i: usize) -> (j: usize)
    requires
        i <= cs@.len(),
    ensures
        j == find_char(cs@, c, i as int),
        i <= j <= cs@.len(),
{
    proof {
        lemma_find_char_bounds(cs@, c, i as int);
    }
    let mut j = i;
    while j < cs.len() && cs[j] != c
        invariant
            i <= j <= cs@.len(),
            find_char(cs@, c, i as int) == find_char(cs@, c, j as int),
        decreases cs@.len() - j,
    {
        j = j + 1;
    }
    j
}

/// The first index of `c` within `cs[a..b]`, counted from `a`; `b - a` when absent.
pub fn find_char_in(cs: &Vec<char>, c: char, a: usize, b: usize) -> (j: usize)
    requires
        a <= b <= cs@.len(),
    ensures
        a <= j <= b,
        j - a == find_char(cs@.subrange(a as int, b as int), c, 0),
{
    let ghost t = cs@.subrange(a as int, b as int);
    let mut j = a;
    while j < b && cs[j] != c
        invariant
            a <= j <= b <= cs@.len(),
            t == cs@.subrange(a as int, b as int),
            find_char(t, c, 0) == find_char(t, c, j - a),
        decreases b - j,
    {
        assert(t[j - a] == cs@[j as int]);
        j = j + 1;
    }
    if j < b {
        assert(t[j - a] == cs@[j as int]);
    }
    j
}

/// The bounds of `cs[x..y]` once trimmed.
pub fn trim_range(cs: &Vec<char>, x: usize, y: usize) -> (r: (usize, usize))
    requires
        x <= y <= cs@.len(),
    ensures
        x <= r.0 <= r.1 <= y,
        cs@.subrange(r.0 as int, r.1 as int) == trim(cs@.subrange(x as int, y as int)),
{
    let mut a = x;
    while a < y && is_whitespace(cs[a])
        invariant
            x <= a <= y <= cs@.len(),
            trim_start(cs@.subrange(x as int, y as int)) == trim_start(cs@.subrange(a as int, y as int)),
        decreases y - a,
    {
        assert(cs@.subrange(a as int, y as int).drop_first() =~= cs@.subrange(a as int + 1, y as int));
        a = a + 1;
    }
    assert(trim_start(cs@.subrange(a as int, y as int)) == cs@.subrange(a as int, y as int));
    let mut b = y;
    while b > a && is_whitespace(cs[b - 1])
        invariant
            x <= a <= b <= y <= cs@.len(),
            trim_start(cs@.subrange(x as int, y as int)) == cs@.subrange(a as int, y as int),
            trim(cs@.subrange(x as int, y as int)) == trim_end(cs@.subrange(a as int, b as int)),
        decreases b - a,
    {
        assert(cs@.subrange(a as int, b as int).drop_last() =~= cs@.subrange(a as int, b as int - 1));
        b = b - 1;
    }
    (a, b)
}

fn lower_code(c: char) -> (u: u32)
    ensures
        u == ascii_lower(c),
{
    let u = c as u32;
    if 65 <= u && u <= 90 {
        u + 32
    } else {
        u
    }
}

/// Whether `cs[a..b]` equals `p` ignoring ASCII case.
pub fn range_eq_ignore_ascii_case(cs: &Vec<char>, a: usize, b: usize, p: &Vec<char>) -> (r: bool)
    requires
        a <= b <= cs@.len(),
    ensures
        r == eq_ignore_ascii_case(cs@.subrange(a as int, b as int), p@),
{
    let ghost t = cs@.subrange(a as int, b as int);
    if b - a != p.len() {
        return false;
    }
    let mut i: usize = 0;
    while i < p.len()
        invariant
            a <= b <= cs@.len(),
            t == cs@.subrange(a as int, b as int),
            b - a == p@.len(),
            i <= p@.len(),
            forall|k: int| 0 <= k < i ==> ascii_lower(#[trigger] t[k]) == ascii_lower(p@[k]),
        decreases p@.len() - i,
    {
        assert(t[i as int] == cs@[a + i]);
        if lower_code(cs[a + i]) != lower_code(p[i]) {
            return false;
        }
        i = i + 1;
    }
    true
}

/// The characters `cs[a..b]` as a vector of their own.
pub fn sub_chars(cs: &Vec<char>, a: usize, b: usize) -> (v: Vec<char>)
    requires
        a <= b <= cs@.len(),
    ensures
        v@ == cs@.subrange(a as int, b as int),
{
    let mut v: Vec<char> = Vec::new();
    let mut i = a;
    while i < b
        invariant
            a <= i <= b <= cs@.len(),
            v@ =~= cs@.subrange(a as int, i as int),
        decreases b - i,
    {
        v.push(cs[i]);
        i = i + 1;
    }
    v
}

/// The bounds of the end of the line that starts at `pos`: where `line_at` ends, and
/// where the next line starts.
fn line_end(cs: &Vec<char>, pos: usize) -> (r: (usize, usize))
    requires
        pos < cs@.len(),
    ensures
        pos <= r.0 <= r.1 <= cs@.len(),
        r.1 == find_char(cs@, '\n', pos as int),
        cs@.subrange(pos as int, r.0 as int) == line_at(cs@, pos as int),
{
    let e = find_char_from(cs, '\n', pos);
    if e < cs.len() && e > pos && cs[e - 1] == '\r' {
        (e - 1, e)
    } else {
        (e, e)
    }
}

/// The bounds (within `cs`) of the first `label` property of the text `cs`.
pub fn property_in(cs: &Vec<char>, label: &Vec<char>) -> (r: Option<(usize, usize)>)
    ensures
        r is Some <==> spec_property(cs@, label@) is Some,
        r matches Some(ab) ==> ab.0 <= ab.1 <= cs@.len() && cs@.subrange(ab.0 as int, ab.1 as int)
            == spec_property(cs@, label@)->0,
{
    let mut pos: usize = 0;
    while pos < cs.len()
        invariant
            pos <= cs@.len(),
            spec_property(cs@, label@) == first_property(lines_from(cs@, pos as int), label@),
        decreases cs@.len() - pos,
    {
        let (le, e) = line_end(cs, pos);
        let ghost line = cs@.subrange(pos as int, le as int);
        assert(lines_from(cs@, pos as int).drop_first() =~= lines_from(cs@, e + 1));
        assert(lines_from(cs@, pos as int)[0] == line);
        let (a, b) = trim_range(cs, pos, le);
        let ghost t = cs@.subrange(a as int, b as int);
        let c = find_char_in(cs, ':', a, b);
        if c < b {
            assert(t.take(c - a) =~= cs@.subrange(a as int, c as int));
            assert(t.skip(c - a + 1) =~= cs@.subrange(c + 1, b as int));
            let (ka, kb) = trim_range(cs, a, c);
            if range_eq_ignore_ascii_case(cs, ka, kb, label) {
                let (va, vb) = trim_range(cs, c + 1, b);
                return Some((va, vb));
            }
        }
        if e < cs.len() {
            pos = e + 1;
        } else {
            assert(lines_from(cs@, e + 1) =~= lines_from(cs@, cs@.len() as int));
            pos = cs.len();
        }
    }
    assert(lines_from(cs@, pos as int) =~= Seq::<Seq<char>>::empty());
    None
}

/// The first of `ls` that, trimmed, starts with `p`.
pub open spec fn first_line_starting(ls: Seq<Seq<char>>, p: Seq<char>) -> Option<Seq<char>>
    decreases ls.len(),
{
    if ls.len() == 0 {
        None
    } else if starts_with(trim(ls[0]), p) {
        Some(ls[0])
    } else {
        first_line_starting(ls.drop_first(), p)
    }
}

/// The bounds (within `cs`) of the first line of the text `cs` that, trimmed,
/// starts with `p`.
pub fn first_line_starting_in(cs: &Vec<char>, p: &Vec<char>) -> (r: Option<(usize, usize)>)
    ensures
        r is Some <==> first_line_starting(lines(cs@), p@) is Some,
        r matches Some(ab) ==> ab.0 <= ab.1 <= cs@.len() && cs@.subrange(ab.0 as int, ab.1 as int)
            == first_line_starting(lines(cs@), p@)->0,
{
    let mut pos: usize = 0;
    while pos < cs.len()
        invariant
            pos <= cs@.len(),
            first_line_starting(lines(cs@), p@) == first_line_starting(
                lines_from(cs@, pos as int),
                p@,
            ),
        decreases cs@.len() - pos,
    {
        let (le, e) = line_end(cs, pos);
        let ghost line = cs@.subrange(pos as int, le as int);
        assert(lines_from(cs@, pos as int).drop_first() =~= lines_from(cs@, e + 1));
        assert(lines_from(cs@, pos as int)[0] == line);
        let (a, b) = trim_range(cs, pos, le);
        if range_starts_with(cs, a, b, p) {
            return Some((pos, le));
        }
        if e < cs.len() {
            pos = e + 1;
        } else {
            assert(lines_from(cs@, e + 1) =~= lines_from(cs@, cs@.len() as int));
            pos = cs.len();
        }
    }
    assert(lines_from(cs@, pos as int) =~= Seq::<Seq<char>>::empty());
    None
}

/// The first index from `i` on at which `p` occurs, or `cs.len()`.
pub fn find_str_from(cs: &Vec<char>, p: &Vec<char>, i: usize) -> (j: usize)
    requires
        i <= cs@.len(),
    ensures
        j == find_str(cs@, p@, i as int),
        i <= j <= cs@.len(),
{
    let mut j = i;
    while j < cs.len() && !occurs_at_exec(cs, j, p)
        invariant
            i <= j <= cs@.len(),
            find_str(cs@, p@, i as int) == find_str(cs@, p@, j as int),
        decreases cs@.len() - j,
    {
        j = j + 1;
    }
    j
}

/// The bounds of the pieces of `cs` between occurrences of a non-empty `p`.
pub fn split_bounds(cs: &Vec<char>, p: &Vec<char>) -> (b: Vec<(usize, usize)>)
    requires
        p@.len() > 0,
    ensures
        b@.len() == split_str(cs@, p@).len(),
        forall|k: int|
            0 <= k < b@.len() ==> {
                &&& (#[trigger] b@[k]).0 <= b@[k].1 <= cs@.len()
                &&& cs@.subrange(b@[k].0 as int, b@[k].1 as int) == split_str(cs@, p@)[k]
            },
{
    let mut b: Vec<(usize, usize)> = Vec::new();
    let ghost mut acc: Seq<Seq<char>> = Seq::empty();
    let mut i: usize = 0;
    let mut done = false;
    while !done
        invariant
            p@.len() > 0,
            i <= cs@.len(),
            acc.len() == b@.len(),
            !done ==> split_str(cs@, p@) == acc + split_from(cs@, p@, i as int),
            done ==> split_str(cs@, p@) == acc,
            forall|k: int|
                0 <= k < b@.len() ==> {
                    &&& (#[trigger] b@[k]).0 <= b@[k].1 <= cs@.len()
                    &&& cs@.subrange(b@[k].0 as int, b@[k].1 as int) == acc[k]
                },
        decreases cs@.len() - i, (if done { 0int } else { 1int }),
    {
        let j = find_str_from(cs, p, i);
        proof {
            lemma_find_str_bounds(cs@, p@, i as int);
        }
        if j >= cs.len() {
            proof {
                let w = cs@.subrange(i as int, cs@.len() as int);
                assert(split_from(cs@, p@, i as int) == seq![w]);
                acc = acc.push(w);
            }
            b.push((i, cs.len()));
            done = true;
        } else {
            proof {
                let w = cs@.subrange(i as int, j as int);
                assert(split_from(cs@, p@, i as int) == seq![w] + split_from(cs@, p@, j + p@.len()));
                assert(acc + (seq![w] + split_from(cs@, p@, j + p@.len())) =~= acc.push(w)
                    + split_from(cs@, p@, j + p@.len()));
                acc = acc.push(w);
            }
            b.push((i, j));
            i = j + p.len();
        }
    }
    b
}

/// Whether `cs[a..b]` has a `label` property.
pub fn has_property(cs: &Vec<char>, a: usize, b: usize, label: &Vec<char>) -> (r: bool)
    requires
        a <= b <= cs@.len(),
    ensures
        r == (spec_property(cs@.subrange(a as int, b as int), label@) is Some),
{
    let seg = sub_chars(cs, a, b);
    property_in(&seg, label).is_some()
}

/// Whether the non-empty `p` occurs in `cs`.
pub fn contains_str(cs: &Vec<char>, p: &Vec<char>) -> (r: bool)
    requires
        p@.len() > 0,
    ensures
        r == contains(cs@, p@),
{
    let j = find_str_from(cs, p, 0);
    proof {
        lemma_find_str_bounds(cs@, p@, 0);
        if contains(cs@, p@) {
            let k = choose|k: int| occurs_at(cs@, p@, k);
            assert(k < cs@.len());
        }
    }
    j < cs.len()
}

/// `str::to_uppercase`: the full Unicode upper-case mapping of `s`.
pub uninterp spec fn uppercase(s: Seq<char>) -> Seq<char>;

/// `str::to_lowercase`: the full Unicode lower-case mapping of `s`.
pub uninterp spec fn lowercase(s: Seq<char>) -> Seq<char>;

/// `str::to_uppercase`, whose result is named [`uppercase`]; it depends on `s` alone.
#[verifier::external_body]
pub(crate) fn to_uppercase(s: &str) -> (r: String)
    ensures
        r@ == uppercase(s@),
{
    s.to_uppercase()
}

/// `str::to_lowercase`, whose result is named [`lowercase`]; it depends on `s` alone.
#[verifier::external_body]
pub(crate) fn to_lowercase(s: &str) -> (r: String)
    ensures
        r@ == lowercase(s@),
{
    s.to_lowercase()
}

/// The words `ws` joined by single spaces.
pub open spec fn join_space(ws: Seq<Seq<char>>) -> Seq<char>
    decreases ws.len(),
{
    if ws.len() == 0 {
        Seq::empty()
    } else if ws.len() == 1 {
        ws[0]
    } else {
        join_space(ws.drop_last()) + seq![' '] + ws.last()
    }
}

/// The words of `s` joined by single spaces: `split_whitespace` then `join(" ")`.
pub fn normalize_whitespace(s: &str) -> (r: String)
    ensures
        r@ == join_space(words(s@)),
{
    let cs = chars_of(s);
    let b = word_bounds(&cs);
    let ghost ws = words(cs@);
    let mut out = String::new();
    let mut k: usize = 0;
    while k < b.len()
        invariant
            are_word_bounds(cs@, b@),
            ws == words(cs@),
            cs@ == s@,
            k <= b@.len(),
            out@ == join_space(ws.take(k as int)),
        decreases b@.len() - k,
    {
        let (x, y) = b[k];
        let w = s.substring_char(x, y);
        assert(ws.take(k as int + 1).drop_last() =~= ws.take(k as int));
        assert(ws.take(k as int + 1).last() == ws[k as int]);
        if k > 0 {
            proof {
                reveal_strlit(" ");
            }
            out.append(" ");
        } else {
            assert(ws.take(1).len() == 1);
        }
        out.append(w);
        k = k + 1;
    }
    assert(ws.take(b@.len() as int) =~= ws);
    out
}

/// Whether `cs[a..b]` starts with `p`.
pub fn range_starts_with(cs: &Vec<char>, a: usize, b: usize, p: &Vec<char>) -> (r: bool)
    requires
        a <= b <= cs@.len(),
    ensures
        r == starts_with(cs@.subrange(a as int, b as int), p@),
{
    if b - a < p.len() {
        return false;
    }
    let r = range_eq(cs, a, a + p.len(), p);
    assert(cs@.subrange(a as int, b as int).subrange(0, p@.len() as int) =~= cs@.subrange(
        a as int,
        a + p@.len(),
    ));
    r
}

/// Whether `s` starts with `p`.
pub fn str_starts_with(s: &str, p: &str) -> (r: bool)
    ensures
        r == starts_with(s@, p@),
{
    let cs = chars_of(s);
    let r = range_starts_with(&cs, 0, cs.len(), &chars_of(p));
    assert(cs@.subrange(0, cs@.len() as int) =~= cs@);
    r
}

/// Whether `s` contains the non-empty `p`.
pub fn str_contains(s: &str, p: &str) -> (r: bool)
    requires
        p@.len() > 0,
    ensures
        r == contains(s@, p@),
{
    contains_str(&chars_of(s), &chars_of(p))
}

/// The decimal digits of `n`, without leading zeros (`"0"` for zero).
pub open spec fn decimal_digits(n: nat) -> Seq<char>
    decreases n,
{
    if n < 10 {
        seq![(n + 48) as char]
    } else {
        decimal_digits(n / 10).push(((n % 10) + 48) as char)
    }
}

/// `v` as `Display` writes an integer: a minus sign for negatives, then its digits.
pub open spec fn decimal(v: int) -> Seq<char> {
    if v < 0 {
        seq!['-'] + decimal_digits((-v) as nat)
    } else {
        decimal_digits(v as nat)
    }
}

fn push_decimal(out: &mut String, n: u64)
    ensures
        final(out)@ == old(out)@ + decimal_digits(n as nat),
    decreases n,
{
    if n >= 10 {
        push_decimal(out, n / 10);
    }
    let d = n % 10;
    let c: &str = if d == 0 {
        "0"
    } else if d == 1 {
        "1"
    } else if d == 2 {
        "2"
    } else if d == 3 {
        "3"
    } else if d == 4 {
        "4"
    } else if d == 5 {
        "5"
    } else if d == 6 {
        "6"
    } else if d == 7 {
        "7"
    } else if d == 8 {
        "8"
    } else {
        "9"
    };
    proof {
        reveal_strlit("0");
        reveal_strlit("1");
        reveal_strlit("2");
        reveal_strlit("3");
        reveal_strlit("4");
        reveal_strlit("5");
        reveal_strlit("6");
        reveal_strlit("7");
        reveal_strlit("8");
        reveal_strlit("9");
    }
    assert(c@ =~= seq![((n % 10) + 48) as char]);
    out.append(c);
}

/// `v` written in decimal, as `format!("{v}")`.
pub fn format_i32(v: i32) -> (s: String)
    ensures
        s@ == decimal(v as int),
{
    let mut s = String::new();
    if v < 0 {
        proof {
            reveal_strlit("-");
        }
        s.append("-");
        let n: u64 = (0i64 - (v as i64)) as u64;
        push_decimal(&mut s, n);
    } else {
        push_decimal(&mut s, v as u64);
    }
    s
}

} // verus!
