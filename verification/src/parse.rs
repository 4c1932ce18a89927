use vstd::prelude::*;

use crate::digest::{digest, digest_of};
use crate::record::{days_in_month, Fill, Pixel, Timestamp};
use crate::text::string_of_chars;
use crate::Error;

verus! {

// ---------------------------------------------------------------------------
// Characters and digits
// ---------------------------------------------------------------------------

pub open spec fn is_digit(c: char) -> bool {
    48 <= c as u32 && c as u32 <= 57
}

pub open spec fn digit_val(c: char) -> int {
    c as u32 - 48
}

pub open spec fn all_digits(s: Seq<char>) -> bool {
    forall|i: int| 0 <= i < s.len() ==> is_digit(#[trigger] s[i])
}

/// Value of a digit string read as a decimal number.
pub open spec fn dec_val(s: Seq<char>) -> int
    decreases s.len(),
{
    if s.len() == 0 {
        0
    } else {
        dec_val(s.drop_last()) * 10 + digit_val(s.last())
    }
}

pub open spec fn is_hex_digit(c: char) -> bool {
    is_digit(c) || (97 <= c as u32 && c as u32 <= 102) || (65 <= c as u32 && c as u32 <= 70)
}

/// Value of one hexadecimal digit, lower or upper case.
pub open spec fn hex_val(c: char) -> int {
    if is_digit(c) {
        digit_val(c)
    } else if 97 <= c as u32 && c as u32 <= 102 {
        c as u32 - 87
    } else {
        c as u32 - 55
    }
}

fn char_digit(c: char) -> (r: Option<u32>)
    ensures
        match r {
            Some(d) => is_digit(c) && d == digit_val(c),
            None => !is_digit(c),
        },
{
    let u = c as u32;
    if 48 <= u && u <= 57 {
        Some(u - 48)
    } else {
        None
    }
}

fn char_hex(c: char) -> (r: Option<u32>)
    ensures
        match r {
            Some(d) => is_hex_digit(c) && d == hex_val(c),
            None => !is_hex_digit(c),
        },
{
    let u = c as u32;
    if 48 <= u && u <= 57 {
        Some(u - 48)
    } else if 97 <= u && u <= 102 {
        Some(u - 87)
    } else if 65 <= u && u <= 70 {
        Some(u - 55)
    } else {
        None
    }
}

// ---------------------------------------------------------------------------
// Finding and slicing
// ---------------------------------------------------------------------------

/// Index of the first occurrence of `c` in `s`, or -1 when `c` does not occur.
pub open spec fn find_idx(s: Seq<char>, c: char) -> int
    decreases s.len(),
{
    if s.len() == 0 {
        -1
    } else if s[0] == c {
        0
    } else if find_idx(s.drop_first(), c) == -1 {
        -1
    } else {
        find_idx(s.drop_first(), c) + 1
    }
}

pub proof fn lemma_find_idx(s: Seq<char>, c: char)
    ensures
        find_idx(s, c) == -1 <==> (forall|i: int| 0 <= i < s.len() ==> s[i] != c),
        find_idx(s, c) != -1 ==> 0 <= find_idx(s, c) < s.len() && s[find_idx(s, c)] == c && (forall|
            i: int,
        |
            0 <= i < find_idx(s, c) ==> s[i] != c),
    decreases s.len(),
{
    if s.len() > 0 && s[0] != c {
        lemma_find_idx(s.drop_first(), c);
        assert(forall|i: int| 1 <= i < s.len() ==> s[i] == s.drop_first()[i - 1]);
    }
}

/// First index of `c` in `v`, if any.
fn find_char(v: &Vec<char>, c: char) -> (r: Option<usize>)
    ensures
        match r {
            Some(i) => find_idx(v@, c) == i,
            None => find_idx(v@, c) == -1,
        },
{
    let mut k: usize = 0;
    while k < v.len()
        invariant
            k <= v@.len(),
            forall|j: int| 0 <= j < k ==> v@[j] != c,
        decreases v@.len() - k,
    {
        if v[k] == c {
            proof {
                lemma_find_idx(v@, c);
            }
            return Some(k);
        }
        k = k + 1;
    }
    proof {
        lemma_find_idx(v@, c);
    }
    None
}

/// Copy of `v[a .. b]`.
fn subvec(v: &Vec<char>, a: usize, b: usize) -> (r: Vec<char>)
    requires
        a <= b <= v@.len(),
    ensures
        r@ == v@.subrange(a as int, b as int),
{
    let mut r: Vec<char> = Vec::new();
    let mut k: usize = a;
    while k < b
        invariant
            a <= k <= b <= v@.len(),
            r@ =~= v@.subrange(a as int, k as int),
        decreases b - k,
    {
        r.push(v[k]);
        k = k + 1;
    }
    proof {
        assert(r@ =~= v@.subrange(a as int, b as int));
    }
    r
}

// ---------------------------------------------------------------------------
// Unsigned decimal numbers
// ---------------------------------------------------------------------------

/// What a coordinate token means: a nonempty all-digit string whose value
/// fits in a `u32`; anything else is malformed.
pub open spec fn spec_parse_u32(s: Seq<char>) -> Option<u32> {
    if s.len() > 0 && all_digits(s) && dec_val(s) <= u32::MAX {
        Some(dec_val(s) as u32)
    } else {
        None
    }
}

pub proof fn lemma_dec_val_nonneg(s: Seq<char>)
    requires
        all_digits(s),
    ensures
        dec_val(s) >= 0,
    decreases s.len(),
{
    if s.len() > 0 {
        assert(all_digits(s.drop_last()));
        lemma_dec_val_nonneg(s.drop_last());
    }
}

/// A decimal prefix never exceeds the whole number's value.
pub proof fn lemma_dec_val_prefix(s: Seq<char>, i: int)
    requires
        all_digits(s),
        0 <= i <= s.len(),
    ensures
        dec_val(s.take(i)) <= dec_val(s),
    decreases s.len(),
{
    if i == s.len() {
        assert(s.take(i) =~= s);
    } else {
        assert(all_digits(s.drop_last()));
        assert(s.take(i) =~= s.drop_last().take(i));
        lemma_dec_val_prefix(s.drop_last(), i);
        lemma_dec_val_nonneg(s.drop_last());
    }
}

pub open spec fn tenpow(n: nat) -> int
    decreases n,
{
    if n == 0 {
        1
    } else {
        10 * tenpow((n - 1) as nat)
    }
}

pub proof fn lemma_dec_val_bound(s: Seq<char>)
    requires
        all_digits(s),
    ensures
        0 <= dec_val(s) < tenpow(s.len()),
    decreases s.len(),
{
    if s.len() > 0 {
        assert(all_digits(s.drop_last()));
        lemma_dec_val_bound(s.drop_last());
    }
}

pub proof fn lemma_tenpow_le(m: nat, n: nat)
    requires
        m <= n,
    ensures
        1 <= tenpow(m) <= tenpow(n),
    decreases n,
{
    if n > 0 {
        if m == n {
            lemma_tenpow_le((n - 1) as nat, (n - 1) as nat);
        } else {
            lemma_tenpow_le(m, (n - 1) as nat);
        }
    }
}

/// Parse a nonempty all-digit token into a `u32`, exactly as
/// `spec_parse_u32` says.
pub fn parse_u32(v: &Vec<char>) -> (r: Option<u32>)
    ensures
        r == spec_parse_u32(v@),
{
    if v.len() == 0 {
        return None;
    }
    let mut acc: u64 = 0;
    let mut k: usize = 0;
    while k < v.len()
        invariant
            0 < v@.len(),
            k <= v@.len(),
            all_digits(v@.take(k as int)),
            acc == dec_val(v@.take(k as int)),
            acc <= u32::MAX as u64,
        decreases v@.len() - k,
    {
        let d = match char_digit(v[k]) {
            Some(d) => d,
            None => {
                return None;
            },
        };
        let acc2: u64 = acc * 10 + d as u64;
        proof {
            assert(v@.take(k + 1).drop_last() =~= v@.take(k as int));
            assert(v@.take(k + 1).last() == v@[k as int]);
            assert(all_digits(v@.take(k + 1)));
            assert(acc2 == dec_val(v@.take(k + 1)));
        }
        if acc2 > u32::MAX as u64 {
            proof {
                if all_digits(v@) {
                    lemma_dec_val_prefix(v@, k + 1);
                }
            }
            return None;
        }
        acc = acc2;
        k = k + 1;
    }
    proof {
        assert(v@.take(v@.len() as int) =~= v@);
    }
    Some(acc as u32)
}

// ---------------------------------------------------------------------------
// Hex color
// ---------------------------------------------------------------------------

/// Value of a two-hex-digit byte, when both characters are hex digits.
pub open spec fn spec_hex_byte(h: char, l: char) -> Option<u8> {
    if is_hex_digit(h) && is_hex_digit(l) {
        Some((hex_val(h) * 16 + hex_val(l)) as u8)
    } else {
        None
    }
}

fn hex_byte(h: char, l: char) -> (r: Option<u8>)
    ensures
        r == spec_hex_byte(h, l),
{
    let hv = match char_hex(h) {
        Some(d) => d,
        None => {
            return None;
        },
    };
    let lv = match char_hex(l) {
        Some(d) => d,
        None => {
            return None;
        },
    };
    Some((hv * 16 + lv) as u8)
}

/// What a color token means: `#` then six hex digits, read as three bytes.
pub open spec fn spec_parse_color(s: Seq<char>) -> Option<(u8, u8, u8)> {
    if s.len() == 7 && s[0] == '#' {
        match (spec_hex_byte(s[1], s[2]), spec_hex_byte(s[3], s[4]), spec_hex_byte(s[5], s[6])) {
            (Some(r), Some(g), Some(b)) => Some((r, g, b)),
            _ => None,
        }
    } else {
        None
    }
}

pub fn parse_color(v: &Vec<char>) -> (r: Option<(u8, u8, u8)>)
    ensures
        r == spec_parse_color(v@),
{
    if v.len() != 7 {
        return None;
    }
    if v[0] != '#' {
        return None;
    }
    let r0 = match hex_byte(v[1], v[2]) {
        Some(b) => b,
        None => {
            return None;
        },
    };
    let g0 = match hex_byte(v[3], v[4]) {
        Some(b) => b,
        None => {
            return None;
        },
    };
    let b0 = match hex_byte(v[5], v[6]) {
        Some(b) => b,
        None => {
            return None;
        },
    };
    Some((r0, g0, b0))
}

// ---------------------------------------------------------------------------
// Timestamp
// ---------------------------------------------------------------------------

/// Shape of the stripped timestamp token: `YYYY-MM-DD HH:MM:SS.ffffff`,
/// 26 characters with digits and separators at fixed positions.
pub open spec fn ts_shape(s: Seq<char>) -> bool {
    &&& s.len() == 26
    &&& all_digits(s.subrange(0, 4))
    &&& s[4] == '-'
    &&& all_digits(s.subrange(5, 7))
    &&& s[7] == '-'
    &&& all_digits(s.subrange(8, 10))
    &&& s[10] == ' '
    &&& all_digits(s.subrange(11, 13))
    &&& s[13] == ':'
    &&& all_digits(s.subrange(14, 16))
    &&& s[16] == ':'
    &&& all_digits(s.subrange(17, 19))
    &&& s[19] == '.'
    &&& all_digits(s.subrange(20, 26))
}

pub open spec fn ts_fields(s: Seq<char>) -> Timestamp {
    Timestamp {
        year: dec_val(s.subrange(0, 4)) as u32,
        month: dec_val(s.subrange(5, 7)) as u32,
        day: dec_val(s.subrange(8, 10)) as u32,
        hour: dec_val(s.subrange(11, 13)) as u32,
        minute: dec_val(s.subrange(14, 16)) as u32,
        second: dec_val(s.subrange(17, 19)) as u32,
        micros: dec_val(s.subrange(20, 26)) as u32,
    }
}

/// What the stripped timestamp token means: the pattern above with every
/// field in its calendar or clock range.
pub open spec fn spec_parse_timestamp(s: Seq<char>) -> Option<Timestamp> {
    if ts_shape(s) && ts_fields(s).well_formed() {
        Some(ts_fields(s))
    } else {
        None
    }
}

fn parse_field(v: &Vec<char>, a: usize, b: usize) -> (r: Option<u32>)
    requires
        a < b && b <= v@.len(),
        b - a <= 6,
    ensures
        match r {
            Some(n) => all_digits(v@.subrange(a as int, b as int)) && n == dec_val(
                v@.subrange(a as int, b as int),
            ),
            None => !all_digits(v@.subrange(a as int, b as int)),
        },
{
    let sub = subvec(v, a, b);
    proof {
        if all_digits(sub@) {
            lemma_dec_val_bound(sub@);
            lemma_tenpow_le(sub@.len(), 6);
            assert(tenpow(6) == 1000000) by {
                reveal_with_fuel(tenpow, 7);
            }
        }
    }
    match parse_u32(&sub) {
        Some(n) => Some(n),
        None => None,
    }
}

pub fn parse_timestamp(v: &Vec<char>) -> (r: Option<Timestamp>)
    ensures
        r == spec_parse_timestamp(v@),
{
    if v.len() != 26 {
        return None;
    }
    if !(v[4] == '-' && v[7] == '-' && v[10] == ' ' && v[13] == ':' && v[16] == ':' && v[19]
        == '.') {
        return None;
    }
    let year = match parse_field(v, 0, 4) {
        Some(n) => n,
        None => {
            return None;
        },
    };
    let month = match parse_field(v, 5, 7) {
        Some(n) => n,
        None => {
            return None;
        },
    };
    let day = match parse_field(v, 8, 10) {
        Some(n) => n,
        None => {
            return None;
        },
    };
    let hour = match parse_field(v, 11, 13) {
        Some(n) => n,
        None => {
            return None;
        },
    };
    let minute = match parse_field(v, 14, 16) {
        Some(n) => n,
        None => {
            return None;
        },
    };
    let second = match parse_field(v, 17, 19) {
        Some(n) => n,
        None => {
            return None;
        },
    };
    let micros = match parse_field(v, 20, 26) {
        Some(n) => n,
        None => {
            return None;
        },
    };
    proof {
        lemma_dec_val_bound(v@.subrange(20, 26));
        assert(tenpow(6) == 1000000) by {
            reveal_with_fuel(tenpow, 7);
        }
    }
    let ts = Timestamp { year, month, day, hour, minute, second, micros };
    if !(1 <= month && month <= 12) {
        return None;
    }
    if !(1 <= day && day <= days_in_month(year, month)) {
        return None;
    }
    if !(hour <= 23 && minute <= 59 && second <= 59) {
        return None;
    }
    Some(ts)
}

// ---------------------------------------------------------------------------
// Placement
// ---------------------------------------------------------------------------

/// Split `s` at every occurrence of `c`; a string with no occurrence is a
/// single part, so there is always at least one part.
pub open spec fn split_all(s: Seq<char>, c: char) -> Seq<Seq<char>>
    decreases s.len(),
{
    let i = find_idx(s, c);
    if !(0 <= i < s.len()) {
        seq![s]
    } else {
        seq![s.take(i)] + split_all(s.skip(i + 1), c)
    }
}

/// What a placement token means: a bracketed comma-separated group with
/// exactly 2 fields (a point) or exactly 4 (a rectangle).
pub open spec fn spec_parse_fill(s: Seq<char>) -> Option<Fill> {
    if s.len() >= 2 && s[0] == '[' && s[s.len() - 1] == ']' {
        let parts = split_all(s.subrange(1, s.len() - 1), ',');
        if parts.len() == 2 {
            match (spec_parse_u32(parts[0]), spec_parse_u32(parts[1])) {
                (Some(x), Some(y)) => Some(Fill::One { x, y }),
                _ => None,
            }
        } else if parts.len() == 4 {
            match (spec_parse_u32(parts[0]), spec_parse_u32(parts[1]), spec_parse_u32(parts[2]),
            spec_parse_u32(parts[3])) {
                (Some(x1), Some(y1), Some(x2), Some(y2)) => Some(Fill::Rect { x1, y1, x2, y2 }),
                _ => None,
            }
        } else {
            None
        }
    } else {
        None
    }
}

fn split_commas(v: &Vec<char>) -> (r: Vec<Vec<char>>)
    ensures
        ({
            let sp = split_all(v@, ',');
            r@.len() == sp.len() && (forall|i: int| 0 <= i < sp.len() ==> r@[i]@ == sp[i])
        }),
    decreases v@.len(),
{
    proof {
        lemma_find_idx(v@, ',');
    }
    match find_char(v, ',') {
        None => {
            let mut r: Vec<Vec<char>> = Vec::new();
            let whole = subvec(v, 0, v.len());
            proof {
                assert(whole@ =~= v@);
            }
            r.push(whole);
            r
        },
        Some(i) => {
            let n = v.len();
            let head = subvec(v, 0, i);
            let tail = subvec(v, i + 1, n);
            let mut rest = split_commas(&tail);
            let mut r: Vec<Vec<char>> = Vec::new();
            r.push(head);
            let ghost rest_snap = rest@;
            r.append(&mut rest);
            proof {
                assert(r@ =~= seq![head].push(head).drop_last() + rest_snap) by {
                    assert(r@.len() == 1 + rest_snap.len());
                }
                assert(split_all(v@, ',') == seq![v@.take(i as int)] + split_all(
                    v@.skip(i + 1),
                    ',',
                ));
            }
            r
        },
    }
}

pub fn parse_fill(v: &Vec<char>) -> (r: Option<Fill>)
    ensures
        r == spec_parse_fill(v@),
{
    if v.len() < 2 {
        return None;
    }
    if v[0] != '[' {
        return None;
    }
    if v[v.len() - 1] != ']' {
        return None;
    }
    let inner = subvec(v, 1, v.len() - 1);
    let parts = split_commas(&inner);
    if parts.len() == 2 {
        let x = match parse_u32(&parts[0]) {
            Some(n) => n,
            None => {
                return None;
            },
        };
        let y = match parse_u32(&parts[1]) {
            Some(n) => n,
            None => {
                return None;
            },
        };
        Some(Fill::One { x, y })
    } else if parts.len() == 4 {
        let x1 = match parse_u32(&parts[0]) {
            Some(n) => n,
            None => {
                return None;
            },
        };
        let y1 = match parse_u32(&parts[1]) {
            Some(n) => n,
            None => {
                return None;
            },
        };
        let x2 = match parse_u32(&parts[2]) {
            Some(n) => n,
            None => {
                return None;
            },
        };
        let y2 = match parse_u32(&parts[3]) {
            Some(n) => n,
            None => {
                return None;
            },
        };
        Some(Fill::Rect { x1, y1, x2, y2 })
    } else {
        None
    }
}

// ---------------------------------------------------------------------------
// One CSV line
// ---------------------------------------------------------------------------

/// What one CSV line means, read left to right: a timestamp token whose
/// last four characters are stripped, the raw author label, a color token,
/// and a placement token, separated by the first three commas.
pub open spec fn spec_parse_line(line: Seq<char>) -> Option<
    (Timestamp, Seq<char>, (u8, u8, u8), Fill),
> {
    let i = find_idx(line, ',');
    if i < 0 {
        None
    } else {
        let ts_tok = line.take(i);
        let rest1 = line.skip(i + 1);
        if ts_tok.len() < 4 {
            None
        } else {
            match spec_parse_timestamp(ts_tok.take(ts_tok.len() - 4)) {
                None => None,
                Some(ts) => {
                    let j = find_idx(rest1, ',');
                    if j < 0 {
                        None
                    } else {
                        let label = rest1.take(j);
                        let rest2 = rest1.skip(j + 1);
                        let k = find_idx(rest2, ',');
                        if k < 0 {
                            None
                        } else {
                            let color_tok = rest2.take(k);
                            let fill_tok = rest2.skip(k + 1);
                            match (spec_parse_color(color_tok), spec_parse_fill(fill_tok)) {
                                (Some(c), Some(f)) => Some((ts, label, c, f)),
                                _ => None,
                            }
                        }
                    }
                },
            }
        }
    }
}

/// `p` is exactly the record that `line` describes: the parse succeeds and
/// every field of `p` is the parsed value, with `user_id` the digest of the
/// retained raw label.
pub open spec fn is_parse_of(p: Pixel, line: Seq<char>) -> bool {
    match spec_parse_line(line) {
        Some(t) => {
            &&& p.timestamp == t.0
            &&& p.user_hash@ == t.1
            &&& p.user_id == digest_of(t.1)
            &&& p.color@ =~= seq![t.2.0, t.2.1, t.2.2]
            &&& p.fill == t.3
        },
        None => false,
    }
}

/// Parse one CSV line into a record, or report that the line is malformed.
pub fn parse_line(line: &Vec<char>) -> (r: Option<Pixel>)
    ensures
        match r {
            Some(p) => is_parse_of(p, line@),
            None => spec_parse_line(line@) is None,
        },
{
    proof {
        lemma_find_idx(line@, ',');
    }
    let i = match find_char(line, ',') {
        Some(i) => i,
        None => {
            return None;
        },
    };
    let n = line.len();
    let ts_tok = subvec(line, 0, i);
    let rest1 = subvec(line, i + 1, n);
    if ts_tok.len() < 4 {
        return None;
    }
    let stripped = subvec(&ts_tok, 0, ts_tok.len() - 4);
    let ts = match parse_timestamp(&stripped) {
        Some(t) => t,
        None => {
            return None;
        },
    };
    proof {
        lemma_find_idx(rest1@, ',');
    }
    let j = match find_char(&rest1, ',') {
        Some(j) => j,
        None => {
            return None;
        },
    };
    let n1 = rest1.len();
    let label = subvec(&rest1, 0, j);
    let rest2 = subvec(&rest1, j + 1, n1);
    proof {
        lemma_find_idx(rest2@, ',');
    }
    let k = match find_char(&rest2, ',') {
        Some(k) => k,
        None => {
            return None;
        },
    };
    let n2 = rest2.len();
    let color_tok = subvec(&rest2, 0, k);
    let fill_tok = subvec(&rest2, k + 1, n2);
    let color = match parse_color(&color_tok) {
        Some(c) => c,
        None => {
            return None;
        },
    };
    let fill = match parse_fill(&fill_tok) {
        Some(f) => f,
        None => {
            return None;
        },
    };
    let label_s = string_of_chars(&label);
    let id = digest(label_s.as_str());
    Some(
        Pixel {
            timestamp: ts,
            user_hash: label_s,
            user_id: id,
            color: [color.0, color.1, color.2],
            fill,
        },
    )
}

// ---------------------------------------------------------------------------
// Lines of the decompressed text
// ---------------------------------------------------------------------------

/// The lines of `s`: split at every newline, strip one carriage return
/// before a newline, and do not count a final empty line after a trailing
/// newline.
pub open spec fn spec_lines(s: Seq<char>) -> Seq<Seq<char>>
    decreases s.len(),
{
    if s.len() == 0 {
        Seq::empty()
    } else {
        let i = find_idx(s, '\n');
        if !(0 <= i < s.len()) {
            seq![s]
        } else {
            let head = s.take(i);
            let stripped = if head.len() > 0 && head[head.len() - 1] == '\r' {
                head.take(head.len() - 1)
            } else {
                head
            };
            seq![stripped] + spec_lines(s.skip(i + 1))
        }
    }
}

fn split_lines(v: &Vec<char>) -> (r: Vec<Vec<char>>)
    ensures
        ({
            let sp = spec_lines(v@);
            r@.len() == sp.len() && (forall|i: int| 0 <= i < sp.len() ==> r@[i]@ == sp[i])
        }),
    decreases v@.len(),
{
    if v.len() == 0 {
        let r: Vec<Vec<char>> = Vec::new();
        return r;
    }
    proof {
        lemma_find_idx(v@, '\n');
    }
    match find_char(v, '\n') {
        None => {
            let mut r: Vec<Vec<char>> = Vec::new();
            let whole = subvec(v, 0, v.len());
            proof {
                assert(whole@ =~= v@);
            }
            r.push(whole);
            r
        },
        Some(i) => {
            let head = subvec(v, 0, i);
            let head2 = if head.len() > 0 && head[head.len() - 1] == '\r' {
                subvec(&head, 0, head.len() - 1)
            } else {
                head
            };
            let tail = subvec(v, i + 1, v.len());
            let mut rest = split_lines(&tail);
            let mut r: Vec<Vec<char>> = Vec::new();
            r.push(head2);
            let ghost rest_snap = rest@;
            r.append(&mut rest);
            r
        },
    }
}

/// Every line after the header parses.
pub open spec fn body_parses(ls: Seq<Seq<char>>) -> bool {
    forall|i: int| 1 <= i < ls.len() ==> spec_parse_line(#[trigger] ls[i]) is Some
}

/// Decode the decompressed CSV text: skip the header line, parse every
/// remaining line, and fail the whole shard on the first malformed line.
pub fn decode_lines(text: &Vec<char>) -> (r: Result<Vec<Pixel>, Error>)
    ensures
        ({
            let ls = spec_lines(text@);
            match r {
                Ok(ps) => {
                    &&& body_parses(ls)
                    &&& ps@.len() == (if ls.len() == 0 {
                        0int
                    } else {
                        ls.len() - 1
                    })
                    &&& forall|i: int| 0 <= i < ps@.len() ==> is_parse_of(#[trigger] ps@[i], ls[i + 1])
                },
                Err(e) => e == Error::Deserialize && !body_parses(ls),
            }
        }),
{
    let lines = split_lines(text);
    let mut res: Vec<Pixel> = Vec::new();
    if lines.len() == 0 {
        return Ok(res);
    }
    let mut k: usize = 1;
    while k < lines.len()
        invariant
            1 <= k <= lines@.len(),
            lines@.len() == spec_lines(text@).len(),
            forall|i: int| 0 <= i < spec_lines(text@).len() ==> lines@[i]@ == spec_lines(text@)[i],
            res@.len() == k - 1,
            forall|i: int|
                0 <= i < res@.len() ==> is_parse_of(#[trigger] res@[i], spec_lines(text@)[i + 1]),
        decreases lines@.len() - k,
    {
        match parse_line(&lines[k]) {
            Some(p) => {
                res.push(p);
            },
            None => {
                proof {
                    assert(spec_parse_line(spec_lines(text@)[k as int]) is None);
                    assert(!body_parses(spec_lines(text@)));
                }
                return Err(Error::Deserialize);
            },
        }
        k = k + 1;
    }
    proof {
        let ls = spec_lines(text@);
        assert forall|i: int| 1 <= i < ls.len() implies spec_parse_line(#[trigger] ls[i]) is Some by {
            assert(is_parse_of(res@[i - 1], ls[i]));
        }
    }
    Ok(res)
}

} // verus!
