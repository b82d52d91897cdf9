//! The archived species format: the run-length cell encoding, the
//! shell-weight list syntax, and the placement of a pattern in its world.

use vstd::prelude::*;
use crate::grid::{centered, is_rect, lemma_centered_keeps_fitting_source, Grid};
use crate::text::{
    chars_of, is_ascii_space, is_unicode_whitespace, remove_ascii_space, skip_leading, skip_trailing, strip_trailing_bangs, trim, trim_chars,
    without_ascii_space,
};

verus! {

/// An ASCII decimal digit.
pub open spec fn is_digit(c: char) -> bool {
    48 <= c as int <= 57
}

/// The value of an ASCII decimal digit.
pub open spec fn digit_value(c: char) -> nat {
    (c as int - 48) as nat
}

/// The characters that open a two-character cell token: `p` to `y`, and `@`.
pub open spec fn is_prefix_char(c: char) -> bool {
    112 <= c as int <= 121 || c as int == 64
}

/// The level (0 for an empty cell, up to 255 for a full one in the archive's
/// range) that a cell token stands for. A token is one character, or a prefix
/// character followed by one character. `.` and `b` are empty, `o` is full,
/// `A`.. count from 1, and a prefix `p`.. adds 24 levels per step past `p`
/// on top of 25.
pub open spec fn cell_level(prefix: Option<char>, ch: char) -> Option<u32> {
    match prefix {
        None => {
            if ch == '.' || ch == 'b' {
                Some(0u32)
            } else if ch == 'o' {
                Some(255u32)
            } else if ch as int >= 65 {
                Some((ch as int - 65 + 1) as u32)
            } else {
                None
            }
        },
        Some(p) => {
            if p as int >= 112 && ch as int >= 65 {
                Some(((p as int - 112) * 24 + (ch as int - 65) + 25) as u32)
            } else {
                None
            }
        },
    }
}

/// The number of copies that a run count stands for: the count itself, or 1
/// when it is absent, zero, or too large for a `usize`.
pub open spec fn repeat_count(count: nat) -> nat {
    if 1 <= count <= usize::MAX {
        count
    } else {
        1
    }
}

/// Cell levels count up without a gap: `A` is level 1 and each following
/// letter one more, up to `X` at 24; a prefix `p` followed by `A` is level 25,
/// and the two-character tokens go on counting through the letters after a
/// prefix and from one prefix (`X`) to the next (`A`). `.` and `b` are empty
/// (0), `o` is full (255), and a character below `A`, alone or after a prefix,
/// or any token after the `@` prefix stands for no level.
pub proof fn lemma_cell_levels_consecutive(a: char, b: char, p: char, q: char)
    requires
        b as int == a as int + 1,
        q as int == p as int + 1,
    ensures
        cell_level(None, 'A') == Some(1u32),
        cell_level(None, 'X') == Some(24u32),
        cell_level(Some('p'), 'A') == Some(25u32),
        65 <= a as int && b as int <= 90 ==> cell_level(None, a) is Some && cell_level(None, b) is Some
            && cell_level(None, b).unwrap() == cell_level(None, a).unwrap() + 1,
        112 <= p as int <= 121 && 65 <= a as int && b as int <= 90 ==> cell_level(Some(p), a) is Some
            && cell_level(Some(p), b) is Some && cell_level(Some(p), b).unwrap() == cell_level(
            Some(p),
            a,
        ).unwrap() + 1,
        112 <= p as int && q as int <= 121 ==> cell_level(Some(q), 'A').unwrap() == cell_level(
            Some(p),
            'X',
        ).unwrap() + 1,
        cell_level(None, '.') == Some(0u32) && cell_level(None, 'b') == Some(0u32),
        cell_level(None, 'o') == Some(255u32),
        a as int <= 64 && a != '.' ==> cell_level(None, a) is None,
        a as int <= 64 ==> cell_level(Some(p), a) is None,
        cell_level(Some('@'), a) is None,
{
}

/// Decoder state: the rows finished so far, the row being filled, the pending
/// run count and the pending token prefix.
pub struct DecodeState {
    pub rows: Seq<Seq<u32>>,
    pub row: Seq<u32>,
    pub count: nat,
    pub prefix: Option<char>,
}

pub open spec fn initial_state() -> DecodeState {
    DecodeState { rows: Seq::empty(), row: Seq::empty(), count: 0, prefix: None }
}

/// One character of the cell encoding. Digits extend the run count; a prefix
/// character is remembered; `$` ends the row (and, with a count `n`, adds
/// `n - 1` empty rows); any other character completes a cell token whose
/// level is appended as many times as the run count says. A token that
/// stands for no level makes the whole input invalid.
pub open spec fn decode_step(st: DecodeState, ch: char) -> Option<DecodeState> {
    if is_digit(ch) {
        Some(DecodeState { rows: st.rows, row: st.row, count: st.count * 10 + digit_value(ch), prefix: st.prefix })
    } else if is_prefix_char(ch) {
        Some(DecodeState { rows: st.rows, row: st.row, count: st.count, prefix: Some(ch) })
    } else if st.prefix is None && ch == '$' {
        Some(
            DecodeState {
                rows: st.rows.push(st.row) + Seq::new(
                    (repeat_count(st.count) - 1) as nat,
                    |i: int| Seq::<u32>::empty(),
                ),
                row: Seq::empty(),
                count: 0,
                prefix: None,
            },
        )
    } else {
        match cell_level(st.prefix, ch) {
            Some(v) => Some(
                DecodeState {
                    rows: st.rows,
                    row: st.row + Seq::new(repeat_count(st.count), |i: int| v),
                    count: 0,
                    prefix: None,
                },
            ),
            None => None,
        }
    }
}

/// The state after reading all of `s`, or `None` once a token is invalid.
pub open spec fn decode_run(s: Seq<char>) -> Option<DecodeState>
    decreases s.len(),
{
    if s.len() == 0 {
        Some(initial_state())
    } else {
        match decode_run(s.drop_last()) {
            Some(st) => decode_step(st, s.last()),
            None => None,
        }
    }
}

/// What the decoder reads of a source: the trimmed text without its trailing
/// `!` terminators and without ASCII whitespace, followed by a final `$`.
pub open spec fn rle_body(source: Seq<char>) -> Seq<char> {
    without_ascii_space(skip_trailing(trim(source), |c: char| c == '!')).push('$')
}

pub open spec fn finished_rows(st: DecodeState) -> Seq<Seq<u32>> {
    if st.rows.len() == 0 {
        seq![st.row]
    } else {
        st.rows
    }
}

/// The length of the longest row (0 when there is none).
pub open spec fn longest(rows: Seq<Seq<u32>>) -> nat
    decreases rows.len(),
{
    if rows.len() == 0 {
        0
    } else {
        let rest = longest(rows.drop_last());
        if rows.last().len() > rest {
            rows.last().len()
        } else {
            rest
        }
    }
}

/// Every row extended with empty cells (level 0) to `width` cells.
pub open spec fn pad_rows(rows: Seq<Seq<u32>>, width: nat) -> Seq<Seq<u32>> {
    Seq::new(rows.len(), |i: int| rows[i] + Seq::new((width - rows[i].len()) as nat, |j: int| 0u32))
}

/// The width of a decoded pattern: its longest row, and at least one cell.
pub open spec fn pattern_width(rows: Seq<Seq<u32>>) -> nat {
    if longest(rows) >= 1 {
        longest(rows)
    } else {
        1
    }
}

/// The rectangular pattern of cell levels that `source` encodes.
pub open spec fn decoded_pattern(source: Seq<char>) -> Option<Seq<Seq<u32>>> {
    match decode_run(rle_body(source)) {
        Some(st) => Some(pad_rows(finished_rows(st), pattern_width(finished_rows(st)))),
        None => None,
    }
}

proof fn lemma_run_take_step(s: Seq<char>, i: int)
    requires
        0 <= i < s.len(),
    ensures
        decode_run(s.take(i + 1)) == match decode_run(s.take(i)) {
            Some(st) => decode_step(st, s[i]),
            None => None,
        },
{
    assert(s.take(i + 1).drop_last() =~= s.take(i));
}

proof fn lemma_run_none_extends(s: Seq<char>, k: int)
    requires
        0 <= k <= s.len(),
        decode_run(s.take(k)) is None,
    ensures
        decode_run(s) is None,
    decreases s.len() - k,
{
    if k < s.len() {
        lemma_run_take_step(s, k);
        lemma_run_none_extends(s, k + 1);
    } else {
        assert(s.take(k) =~= s);
    }
}

proof fn lemma_longest_bound(rows: Seq<Seq<u32>>, i: int)
    requires
        0 <= i < rows.len(),
    ensures
        rows[i].len() <= longest(rows),
    decreases rows.len(),
{
    if i < rows.len() - 1 {
        lemma_longest_bound(rows.drop_last(), i);
    }
}

/// The ASCII digit that stands for `d` (taken as `9` from 9 up).
pub open spec fn digit_char(d: nat) -> char {
    if d == 0 {
        '0'
    } else if d == 1 {
        '1'
    } else if d == 2 {
        '2'
    } else if d == 3 {
        '3'
    } else if d == 4 {
        '4'
    } else if d == 5 {
        '5'
    } else if d == 6 {
        '6'
    } else if d == 7 {
        '7'
    } else if d == 8 {
        '8'
    } else {
        '9'
    }
}

/// The decimal numeral of `n`: its digits, most significant first, with no
/// leading zero.
pub open spec fn decimal(n: nat) -> Seq<char>
    decreases n,
{
    if n < 10 {
        seq![digit_char(n)]
    } else {
        decimal(n / 10).push(digit_char(n % 10))
    }
}

proof fn lemma_digit_char(d: nat)
    requires
        d < 10,
    ensures
        is_digit(digit_char(d)),
        digit_value(digit_char(d)) == d,
{
}

/// The numeral of `n` is a non-empty run of digits; read after any input
/// that leaves no run count pending, it leaves the run count `n` pending and
/// changes nothing else.
proof fn lemma_decimal_count(pre: Seq<char>, st0: DecodeState, n: nat)
    requires
        decode_run(pre) == Some(st0),
        st0.count == 0,
    ensures
        decimal(n).len() >= 1,
        forall|i: int| 0 <= i < decimal(n).len() ==> is_digit(#[trigger] decimal(n)[i]),
        decode_run(pre + decimal(n)) == Some(
            DecodeState { rows: st0.rows, row: st0.row, count: n, prefix: st0.prefix },
        ),
    decreases n,
{
    let st = DecodeState { rows: st0.rows, row: st0.row, count: n, prefix: st0.prefix };
    if n < 10 {
        lemma_digit_char(n);
        assert((pre + decimal(n)).drop_last() =~= pre);
        assert((pre + decimal(n)).last() == digit_char(n));
        assert(decode_step(st0, digit_char(n)) == Some(st));
    } else {
        lemma_decimal_count(pre, st0, n / 10);
        lemma_digit_char(n % 10);
        assert((pre + decimal(n)).drop_last() =~= pre + decimal(n / 10));
        assert((pre + decimal(n)).last() == digit_char(n % 10));
        vstd::arithmetic::div_mod::lemma_fundamental_div_mod(n as int, 10);
        assert((n / 10) * 10 + n % 10 == n) by (nonlinear_arith)
            requires
                n == 10 * (n / 10) + n % 10,
        ;
        let prev = DecodeState { rows: st0.rows, row: st0.row, count: n / 10, prefix: st0.prefix };
        assert(decode_step(prev, digit_char(n % 10)) == Some(st));
        assert forall|i: int| 0 <= i < decimal(n).len() implies is_digit(#[trigger] decimal(n)[i]) by {
            if i < decimal(n).len() - 1 {
                assert(decimal(n)[i] == decimal(n / 10)[i]);
            }
        }
    }
}

proof fn lemma_no_ascii_space_kept(s: Seq<char>)
    requires
        forall|i: int| 0 <= i < s.len() ==> !is_ascii_space(#[trigger] s[i]),
    ensures
        without_ascii_space(s) == s,
    decreases s.len(),
{
    if s.len() > 0 {
        lemma_no_ascii_space_kept(s.drop_last());
        assert(s.drop_last().push(s.last()) =~= s);
    }
}

/// A run count written in decimal repeats the cell token after it that many
/// times: the numeral of any `n` from 1 up to `usize::MAX` followed by one
/// letter `A`..`Z` decodes to a single row of `n` cells, each of the letter's
/// level (1 for `A` up to 26 for `Z`). A count of zero, or one too large for
/// a `usize`, counts as one.
pub proof fn lemma_run_count_repeats(n: nat, ch: char)
    requires
        65 <= ch as int <= 90,
    ensures
        1 <= n <= usize::MAX ==> decoded_pattern(decimal(n).push(ch)) == Some(
            seq![Seq::new(n, |i: int| (ch as int - 64) as u32)],
        ),
        (n == 0 || n > usize::MAX) ==> decoded_pattern(decimal(n).push(ch)) == Some(
            seq![seq![(ch as int - 64) as u32]],
        ),
{
    let src = decimal(n).push(ch);
    lemma_decimal_count(Seq::empty(), initial_state(), n);
    assert(Seq::<char>::empty() + decimal(n) =~= decimal(n));
    assert forall|i: int| 0 <= i < src.len() implies !is_ascii_space(#[trigger] src[i])
        && !is_unicode_whitespace(src[i]) by {
        if i < decimal(n).len() {
            assert(is_digit(decimal(n)[i]));
        }
    }
    assert(is_digit(src[0]));
    assert(skip_leading(src, |c: char| is_unicode_whitespace(c)) == src);
    assert(skip_trailing(src, |c: char| is_unicode_whitespace(c)) == src);
    assert(trim(src) == src);
    assert(skip_trailing(src, |c: char| c == '!') == src);
    lemma_no_ascii_space_kept(src);
    let body = src.push('$');
    assert(rle_body(src) == body);
    assert(body.drop_last() == src);
    assert(src.drop_last() =~= decimal(n));
    let level = (ch as int - 64) as u32;
    let row = Seq::new(repeat_count(n), |i: int| level);
    let st1 = DecodeState { rows: Seq::empty(), row: row, count: 0, prefix: None };
    assert(cell_level(None, ch) == Some(level));
    assert(decode_run(src) == Some(st1)) by {
        assert(Seq::<u32>::empty() + Seq::new(repeat_count(n), |i: int| level) =~= row);
    }
    let rows = seq![row];
    let st2 = DecodeState { rows: rows, row: Seq::empty(), count: 0, prefix: None };
    assert(decode_run(body) == Some(st2)) by {
        assert(Seq::<Seq<u32>>::empty().push(row) + Seq::new(
            (repeat_count(0) - 1) as nat,
            |i: int| Seq::<u32>::empty(),
        ) =~= rows);
    }
    assert(finished_rows(st2) == rows);
    assert(rows.drop_last() =~= Seq::<Seq<u32>>::empty());
    assert(longest(rows.drop_last()) == 0);
    assert(longest(rows) == repeat_count(n));
    assert(pad_rows(rows, pattern_width(rows)) =~= rows) by {
        assert(rows[0] + Seq::new((repeat_count(n) - rows[0].len()) as nat, |j: int| 0u32) =~= rows[0]);
    }
    assert(n == 0 || n > usize::MAX ==> row =~= seq![level]);
}

proof fn lemma_longest_at_most(rows: Seq<Seq<u32>>, w: nat)
    requires
        forall|i: int| 0 <= i < rows.len() ==> (#[trigger] rows[i]).len() <= w,
    ensures
        longest(rows) <= w,
    decreases rows.len(),
{
    if rows.len() > 0 {
        lemma_longest_at_most(rows.drop_last(), w);
    }
}

/// A run count before the row end `$` ends the row and adds that many rows
/// less one, all empty: the numeral of any `n` from 1 up to `usize::MAX`
/// between a letter `a` and `$` followed by a letter `b` decodes to the row
/// of `a`, then `n - 1` empty rows (padded to one empty cell), then the row
/// of `b`.
pub proof fn lemma_row_count_repeats(a: char, n: nat, b: char)
    requires
        1 <= n <= usize::MAX,
        65 <= a as int <= 90,
        65 <= b as int <= 90,
    ensures
        decoded_pattern(seq![a] + decimal(n) + seq!['$', b]) == Some(
            seq![seq![(a as int - 64) as u32]] + Seq::new((n - 1) as nat, |i: int| seq![0u32]) + seq![
                seq![(b as int - 64) as u32],
            ],
        ),
{
    let la = (a as int - 64) as u32;
    let lb = (b as int - 64) as u32;
    let src = seq![a] + decimal(n) + seq!['$', b];
    let st_a = DecodeState { rows: Seq::empty(), row: seq![la], count: 0, prefix: None };
    assert(seq![a].drop_last() =~= Seq::<char>::empty());
    assert(Seq::<u32>::empty() + Seq::new(repeat_count(0), |i: int| la) =~= seq![la]);
    assert(seq![a].last() == a);
    assert(cell_level(None, a) == Some(la));
    assert(cell_level(None, b) == Some(lb));
    assert(decode_run(Seq::<char>::empty()) == Some(initial_state()));
    assert(decode_run(seq![a]) == Some(st_a));
    lemma_decimal_count(seq![a], st_a, n);
    let pre = seq![a] + decimal(n);
    assert forall|i: int| 0 <= i < src.len() implies !is_ascii_space(#[trigger] src[i])
        && !is_unicode_whitespace(src[i]) by {
        if 1 <= i < 1 + decimal(n).len() {
            assert(src[i] == decimal(n)[i - 1]);
            assert(is_digit(decimal(n)[i - 1]));
        }
    }
    assert(skip_leading(src, |c: char| is_unicode_whitespace(c)) == src);
    assert(skip_trailing(src, |c: char| is_unicode_whitespace(c)) == src);
    assert(trim(src) == src);
    assert(skip_trailing(src, |c: char| c == '!') == src);
    lemma_no_ascii_space_kept(src);
    let body = src.push('$');
    assert(rle_body(src) == body);
    let empties = Seq::new((n - 1) as nat, |i: int| Seq::<u32>::empty());
    let st_d = DecodeState { rows: seq![seq![la]] + empties, row: Seq::empty(), count: 0, prefix: None };
    assert(pre.push('$').drop_last() =~= pre);
    assert(Seq::<Seq<u32>>::empty().push(seq![la]) =~= seq![seq![la]]);
    assert(decode_run(pre.push('$')) == Some(st_d));
    let st_b = DecodeState { rows: st_d.rows, row: seq![lb], count: 0, prefix: None };
    assert(src.drop_last() =~= pre.push('$'));
    assert(Seq::<u32>::empty() + Seq::new(repeat_count(0), |i: int| lb) =~= seq![lb]);
    assert(decode_run(src) == Some(st_b));
    let rows = seq![seq![la]] + empties + seq![seq![lb]];
    assert(body.drop_last() =~= src);
    assert(st_d.rows.push(seq![lb]) + Seq::new((repeat_count(0) - 1) as nat, |i: int| Seq::<u32>::empty())
        =~= rows);
    let st_e = DecodeState { rows: rows, row: Seq::empty(), count: 0, prefix: None };
    assert(decode_run(body) == Some(st_e));
    assert(finished_rows(st_e) == rows);
    assert forall|i: int| 0 <= i < rows.len() implies (#[trigger] rows[i]).len() <= 1 by {
        if 1 <= i < n {
            assert(rows[i] == empties[i - 1]);
        }
    }
    lemma_longest_at_most(rows, 1);
    lemma_longest_bound(rows, 0);
    assert(pattern_width(rows) == 1);
    let want = seq![seq![la]] + Seq::new((n - 1) as nat, |i: int| seq![0u32]) + seq![seq![lb]];
    assert(pad_rows(rows, 1) =~= want) by {
        assert forall|i: int| 0 <= i < rows.len() implies #[trigger] pad_rows(rows, 1)[i] =~= want[i] by {
            if 1 <= i < n {
                assert(rows[i] == empties[i - 1]);
            }
        }
    }
}

/// A run count also repeats a two-character token: the numeral of any `n`
/// from 1 up to `usize::MAX` followed by a prefix `p`..`y` and a letter
/// `A`..`Z` decodes to a single row of `n` cells of that token's level.
pub proof fn lemma_prefixed_run_repeats(n: nat, p: char, ch: char)
    requires
        1 <= n <= usize::MAX,
        112 <= p as int <= 121,
        65 <= ch as int <= 90,
    ensures
        decoded_pattern(decimal(n) + seq![p, ch]) == Some(
            seq![Seq::new(n, |i: int| ((p as int - 112) * 24 + (ch as int - 65) + 25) as u32)],
        ),
{
    let src = decimal(n) + seq![p, ch];
    lemma_decimal_count(Seq::empty(), initial_state(), n);
    assert(Seq::<char>::empty() + decimal(n) =~= decimal(n));
    assert forall|i: int| 0 <= i < src.len() implies !is_ascii_space(#[trigger] src[i])
        && !is_unicode_whitespace(src[i]) by {
        if i < decimal(n).len() {
            assert(is_digit(decimal(n)[i]));
        }
    }
    assert(is_digit(src[0]));
    assert(skip_leading(src, |c: char| is_unicode_whitespace(c)) == src);
    assert(skip_trailing(src, |c: char| is_unicode_whitespace(c)) == src);
    assert(trim(src) == src);
    assert(skip_trailing(src, |c: char| c == '!') == src);
    lemma_no_ascii_space_kept(src);
    let body = src.push('$');
    assert(rle_body(src) == body);
    let level = ((p as int - 112) * 24 + (ch as int - 65) + 25) as u32;
    let row = Seq::new(n, |i: int| level);
    let st_p = DecodeState { rows: Seq::empty(), row: Seq::empty(), count: n, prefix: Some(p) };
    assert(src.drop_last().drop_last() =~= decimal(n));
    assert(src.drop_last().last() == p);
    assert(decode_run(src.drop_last()) == Some(st_p));
    assert(cell_level(Some(p), ch) == Some(level));
    let st1 = DecodeState { rows: Seq::empty(), row: row, count: 0, prefix: None };
    assert(decode_run(src) == Some(st1)) by {
        assert(Seq::<u32>::empty() + Seq::new(repeat_count(n), |i: int| level) =~= row);
    }
    let rows = seq![row];
    let st2 = DecodeState { rows: rows, row: Seq::empty(), count: 0, prefix: None };
    assert(body.drop_last() == src);
    assert(decode_run(body) == Some(st2)) by {
        assert(Seq::<Seq<u32>>::empty().push(row) + Seq::new(
            (repeat_count(0) - 1) as nat,
            |i: int| Seq::<u32>::empty(),
        ) =~= rows);
    }
    assert(finished_rows(st2) == rows);
    assert(rows.drop_last() =~= Seq::<Seq<u32>>::empty());
    assert(longest(rows.drop_last()) == 0);
    assert(longest(rows) == n);
    assert(pad_rows(rows, pattern_width(rows)) =~= rows) by {
        assert(rows[0] + Seq::new((n - rows[0].len()) as nat, |j: int| 0u32) =~= rows[0]);
    }
}

/// Rows shorter than the longest one are completed with empty cells: the
/// letter `a`, a row end, then the numeral of any `n` from 1 up to
/// `usize::MAX` and a letter `b` decode to two rows of `n` cells, the first
/// holding `a`'s level followed by `n - 1` empty cells, the second `n`
/// cells of `b`'s level.
pub proof fn lemma_short_rows_padded_with_empty(a: char, n: nat, b: char)
    requires
        1 <= n <= usize::MAX,
        65 <= a as int <= 90,
        65 <= b as int <= 90,
    ensures
        decoded_pattern(seq![a, '$'] + decimal(n) + seq![b]) == Some(
            seq![
                seq![(a as int - 64) as u32] + Seq::new((n - 1) as nat, |i: int| 0u32),
                Seq::new(n, |i: int| (b as int - 64) as u32),
            ],
        ),
{
    let la = (a as int - 64) as u32;
    let lb = (b as int - 64) as u32;
    let src = seq![a, '$'] + decimal(n) + seq![b];
    assert(cell_level(None, a) == Some(la));
    assert(cell_level(None, b) == Some(lb));
    assert(decode_run(Seq::<char>::empty()) == Some(initial_state()));
    let st_a = DecodeState { rows: Seq::empty(), row: seq![la], count: 0, prefix: None };
    assert(seq![a].drop_last() =~= Seq::<char>::empty());
    assert(Seq::<u32>::empty() + Seq::new(repeat_count(0), |i: int| la) =~= seq![la]);
    assert(decode_run(seq![a]) == Some(st_a));
    let st_d = DecodeState { rows: seq![seq![la]], row: Seq::empty(), count: 0, prefix: None };
    assert(seq![a, '$'].drop_last() =~= seq![a]);
    assert(Seq::<Seq<u32>>::empty().push(seq![la]) + Seq::new(
        (repeat_count(0) - 1) as nat,
        |i: int| Seq::<u32>::empty(),
    ) =~= seq![seq![la]]);
    assert(decode_run(seq![a, '$']) == Some(st_d));
    lemma_decimal_count(seq![a, '$'], st_d, n);
    let pre = seq![a, '$'] + decimal(n);
    let row_b = Seq::new(n, |i: int| lb);
    let st_b = DecodeState { rows: seq![seq![la]], row: row_b, count: 0, prefix: None };
    assert(src.drop_last() =~= pre);
    assert(Seq::<u32>::empty() + Seq::new(repeat_count(n), |i: int| lb) =~= row_b);
    assert(decode_run(src) == Some(st_b));
    assert forall|i: int| 0 <= i < src.len() implies !is_ascii_space(#[trigger] src[i])
        && !is_unicode_whitespace(src[i]) by {
        if 2 <= i < 2 + decimal(n).len() {
            assert(src[i] == decimal(n)[i - 2]);
            assert(is_digit(decimal(n)[i - 2]));
        }
    }
    assert(skip_leading(src, |c: char| is_unicode_whitespace(c)) == src);
    assert(skip_trailing(src, |c: char| is_unicode_whitespace(c)) == src);
    assert(trim(src) == src);
    assert(skip_trailing(src, |c: char| c == '!') == src);
    lemma_no_ascii_space_kept(src);
    let body = src.push('$');
    assert(rle_body(src) == body);
    assert(body.drop_last() =~= src);
    let rows = seq![seq![la], row_b];
    assert(seq![seq![la]].push(row_b) + Seq::new((repeat_count(0) - 1) as nat, |i: int| Seq::<u32>::empty())
        =~= rows);
    let st_e = DecodeState { rows: rows, row: Seq::empty(), count: 0, prefix: None };
    assert(decode_run(body) == Some(st_e));
    assert(finished_rows(st_e) == rows);
    assert forall|i: int| 0 <= i < rows.len() implies (#[trigger] rows[i]).len() <= n by {}
    lemma_longest_at_most(rows, n);
    lemma_longest_bound(rows, 1);
    assert(pattern_width(rows) == n);
    let want = seq![
        seq![la] + Seq::new((n - 1) as nat, |i: int| 0u32),
        row_b,
    ];
    assert(pad_rows(rows, n) =~= want) by {
        assert(pad_rows(rows, n)[0] =~= want[0]);
        assert(pad_rows(rows, n)[1] =~= want[1]);
    }
}

/// The Unicode scalar value of `c`.
fn code_point(c: char) -> (u: u32)
    ensures
        u as int == c as int,
        u <= 0x10FFFF,
{
    c as u32
}

/// The level of the cell token made of `prefix` (if any) and `ch`.
pub fn decode_cell_token(prefix: Option<char>, ch: char) -> (v: Option<u32>)
    ensures
        v == cell_level(prefix, ch),
{
    match prefix {
        None => {
            if ch == '.' || ch == 'b' {
                Some(0)
            } else if ch == 'o' {
                Some(255)
            } else {
                let u = code_point(ch);
                if u >= 65 {
                    Some(u - 65 + 1)
                } else {
                    None
                }
            }
        },
        Some(p) => {
            let pu = code_point(p);
            let cu = code_point(ch);
            if pu >= 112 && cu >= 65 {
                Some((pu - 112) * 24 + (cu - 65) + 25)
            } else {
                None
            }
        },
    }
}

/// Decodes the archive's two-dimensional run-length cell encoding into a
/// rectangular grid of cell levels. Rows shorter than the longest one are
/// padded with empty cells; `None` when a cell token is invalid.
pub fn decode_rle_2d(source: &str) -> (g: Option<Grid<u32>>)
    ensures
        g is Some <==> decoded_pattern(source@) is Some,
        g matches Some(g) ==> {
            &&& Some(g@) == decoded_pattern(source@)
            &&& g@.len() >= 1
            &&& g.width() >= 1
            &&& is_rect(g@, g.width())
        },
{
    let raw = chars_of(source);
    let trimmed = trim_chars(&raw);
    let unbanged = strip_trailing_bangs(&trimmed);
    let mut body = remove_ascii_space(&unbanged);
    body.push('$');
    let ghost body_spec = rle_body(source@);
    proof {
        assert(body@ == body_spec);
        assert(body@.take(0) =~= Seq::<char>::empty());
    }
    let mut rows: Vec<Vec<u32>> = Vec::new();
    let mut row: Vec<u32> = Vec::new();
    let mut count: Option<usize> = Some(0);
    let mut prefix: Option<char> = None;
    let ghost mut st = initial_state();
    let mut i: usize = 0;
    while i < body.len()
        invariant
            i <= body@.len(),
            body@ == body_spec,
            body_spec == rle_body(source@),
            decode_run(body@.take(i as int)) == Some(st),
            rows@.map_values(|r: Vec<u32>| r@) == st.rows,
            row@ == st.row,
            prefix == st.prefix,
            count == (if st.count <= usize::MAX { Some(st.count as usize) } else { None::<usize> }),
        decreases body@.len() - i,
    {
        let ch = body[i];
        proof {
            lemma_run_take_step(body@, i as int);
        }
        let u = code_point(ch);
        if 48 <= u && u <= 57 {
            let d = (u - 48) as usize;
            count = match count {
                Some(c) => match c.checked_mul(10) {
                    Some(t) => t.checked_add(d),
                    None => None,
                },
                None => None,
            };
            proof {
                st = DecodeState { rows: st.rows, row: st.row, count: st.count * 10 + digit_value(ch), prefix: st.prefix };
            }
        } else if (112 <= u && u <= 121) || u == 64 {
            prefix = Some(ch);
            proof {
                st = DecodeState { rows: st.rows, row: st.row, count: st.count, prefix: Some(ch) };
            }
        } else {
            let n: usize = match count {
                Some(c) => if c > 0 { c } else { 1 },
                None => 1,
            };
            assert(n == repeat_count(st.count));
            if prefix.is_none() && ch == '$' {
                let finished = row;
                rows.push(finished);
                row = Vec::new();
                let ghost base = st.rows.push(st.row);
                proof {
                    assert(rows@.map_values(|r: Vec<u32>| r@) =~= base);
                }
                let mut k: usize = 1;
                while k < n
                    invariant
                        1 <= k <= n,
                        rows@.map_values(|r: Vec<u32>| r@) == base + Seq::new(
                            (k - 1) as nat,
                            |j: int| Seq::<u32>::empty(),
                        ),
                    decreases n - k,
                {
                    let ghost before = rows@.map_values(|r: Vec<u32>| r@);
                    rows.push(Vec::new());
                    proof {
                        assert(rows@.map_values(|r: Vec<u32>| r@) =~= before.push(Seq::<u32>::empty()));
                        assert(base + Seq::new(k as nat, |j: int| Seq::<u32>::empty()) =~= (base
                            + Seq::new((k - 1) as nat, |j: int| Seq::<u32>::empty())).push(
                            Seq::<u32>::empty(),
                        ));
                    }
                    k = k + 1;
                }
                proof {
                    st = DecodeState {
                        rows: st.rows.push(st.row) + Seq::new((n - 1) as nat, |j: int| Seq::<u32>::empty()),
                        row: Seq::empty(),
                        count: 0,
                        prefix: None,
                    };
                    assert(row@ =~= Seq::<u32>::empty());
                }
            } else {
                match decode_cell_token(prefix, ch) {
                    None => {
                        proof {
                            lemma_run_none_extends(body@, i + 1);
                        }
                        return None;
                    },
                    Some(v) => {
                        let ghost start = row@;
                        let mut k: usize = 0;
                        while k < n
                            invariant
                                k <= n,
                                row@ == start + Seq::new(k as nat, |j: int| v),
                            decreases n - k,
                        {
                            row.push(v);
                            proof {
                                assert(start + Seq::new((k + 1) as nat, |j: int| v) =~= (start
                                    + Seq::new(k as nat, |j: int| v)).push(v));
                            }
                            k = k + 1;
                        }
                        proof {
                            st = DecodeState {
                                rows: st.rows,
                                row: st.row + Seq::new(n as nat, |j: int| v),
                                count: 0,
                                prefix: None,
                            };
                        }
                    },
                }
            }
            count = Some(0);
            prefix = None;
        }
        i = i + 1;
    }
    proof {
        assert(body@.take(body@.len() as int) =~= body@);
    }
    if rows.len() == 0 {
        let last = row;
        rows.push(last);
    }
    let ghost fin = finished_rows(st);
    proof {
        assert(rows@.map_values(|r: Vec<u32>| r@) =~= fin);
    }
    let mut longest_len: usize = 0;
    let mut k: usize = 0;
    while k < rows.len()
        invariant
            k <= rows@.len(),
            rows@.map_values(|r: Vec<u32>| r@) == fin,
            longest_len == longest(fin.take(k as int)),
        decreases rows@.len() - k,
    {
        proof {
            assert(fin.take(k + 1).drop_last() =~= fin.take(k as int));
            assert(fin[k as int] == rows@[k as int]@);
        }
        if rows[k].len() > longest_len {
            longest_len = rows[k].len();
        }
        k = k + 1;
    }
    proof {
        assert(fin.take(fin.len() as int) =~= fin);
    }
    let width: usize = if longest_len >= 1 { longest_len } else { 1 };
    let ghost want = pad_rows(fin, pattern_width(fin));
    let mut padded: Vec<Vec<u32>> = Vec::new();
    let mut r: usize = 0;
    while r < rows.len()
        invariant
            r <= rows@.len(),
            rows@.map_values(|x: Vec<u32>| x@) == fin,
            width == pattern_width(fin),
            want == pad_rows(fin, pattern_width(fin)),
            padded@.len() == r,
            forall|q: int| 0 <= q < r ==> (#[trigger] padded@[q])@ == want[q],
        decreases rows@.len() - r,
    {
        proof {
            assert(fin[r as int] == rows@[r as int]@);
            lemma_longest_bound(fin, r as int);
        }
        let src = &rows[r];
        let mut out: Vec<u32> = Vec::new();
        let mut c: usize = 0;
        while c < src.len()
            invariant
                c <= src@.len(),
                out@ == src@.take(c as int),
            decreases src@.len() - c,
        {
            out.push(src[c]);
            proof {
                assert(out@ =~= src@.take(c + 1));
            }
            c = c + 1;
        }
        proof {
            assert(src@.take(src@.len() as int) =~= src@);
        }
        let ghost base = out@;
        while c < width
            invariant
                src@.len() <= c <= width,
                out@ == base + Seq::new((c - src@.len()) as nat, |j: int| 0u32),
            decreases width - c,
        {
            out.push(0);
            proof {
                assert(base + Seq::new((c + 1 - src@.len()) as nat, |j: int| 0u32) =~= (base
                    + Seq::new((c - src@.len()) as nat, |j: int| 0u32)).push(0u32));
            }
            c = c + 1;
        }
        proof {
            assert(out@ =~= want[r as int]);
        }
        padded.push(out);
        r = r + 1;
    }
    let ghost padded_view = padded@.map_values(|x: Vec<u32>| x@);
    proof {
        assert(padded_view =~= want);
        assert forall|q: int| 0 <= q < padded_view.len() implies #[trigger] padded_view[q].len() == width by {
            lemma_longest_bound(fin, q);
        }
    }
    match Grid::from_rows(width, padded) {
        Some(g) => Some(g),
        None => None,
    }
}


/// The fields of `s` between commas, as `str::split(',')` yields them
/// (always at least one, possibly empty).
pub open spec fn split_commas(s: Seq<char>) -> Seq<Seq<char>>
    decreases s.len(),
{
    if s.len() == 0 {
        seq![Seq::<char>::empty()]
    } else {
        let fields = split_commas(s.drop_last());
        if s.last() == ',' {
            fields.push(Seq::<char>::empty())
        } else {
            fields.update(fields.len() - 1, fields.last().push(s.last()))
        }
    }
}

/// The fields joined back together, with a comma between each two.
pub open spec fn join_commas(fields: Seq<Seq<char>>) -> Seq<char>
    decreases fields.len(),
{
    if fields.len() <= 1 {
        if fields.len() == 1 { fields[0] } else { Seq::empty() }
    } else {
        join_commas(fields.drop_last()).push(',') + fields.last()
    }
}

/// Splitting at commas loses nothing and cuts at every comma: there is at
/// least one field, no field holds a comma, and joining the fields with
/// commas gives back the input.
pub proof fn lemma_split_commas_rejoins(s: Seq<char>)
    ensures
        split_commas(s).len() >= 1,
        forall|i: int, j: int|
            0 <= i < split_commas(s).len() && 0 <= j < split_commas(s)[i].len() ==> #[trigger] split_commas(
                s,
            )[i][j] != ',',
        join_commas(split_commas(s)) == s,
    decreases s.len(),
{
    if s.len() > 0 {
        let f = split_commas(s.drop_last());
        lemma_split_commas_rejoins(s.drop_last());
        let g = split_commas(s);
        if s.last() == ',' {
            assert(g == f.push(Seq::<char>::empty()));
            assert(g.drop_last() =~= f);
            assert(join_commas(g) =~= s);
            assert forall|i: int, j: int| 0 <= i < g.len() && 0 <= j < g[i].len() implies #[trigger] g[i][j]
                != ',' by {
                assert(g[i] == f[i]);
            }
        } else {
            let f2 = f.update(f.len() - 1, f.last().push(s.last()));
            assert(g == f2);
            if f.len() == 1 {
                assert(join_commas(f2) =~= s);
            } else {
                assert(f2.drop_last() =~= f.drop_last());
                let x = join_commas(f.drop_last()).push(',');
                assert(join_commas(f) == x + f.last());
                assert(join_commas(f2) == x + f.last().push(s.last()));
                assert(s =~= s.drop_last().push(s.last()));
                assert(x + f.last().push(s.last()) =~= (x + f.last()).push(s.last()));
                assert(join_commas(f2) =~= s);
            }
            assert forall|i: int, j: int| 0 <= i < g.len() && 0 <= j < g[i].len() implies #[trigger] g[i][j]
                != ',' by {
                if i < f.len() - 1 {
                    assert(g[i] == f[i]);
                } else if j < f.last().len() {
                    assert(g[i][j] == f[i][j]);
                }
            }
        }
    }
}

/// The fields, trimmed, keeping only those that are not empty.
pub open spec fn nonempty_trimmed(fields: Seq<Seq<char>>) -> Seq<Seq<char>>
    decreases fields.len(),
{
    if fields.len() == 0 {
        fields
    } else if trim(fields.last()).len() == 0 {
        nonempty_trimmed(fields.drop_last())
    } else {
        nonempty_trimmed(fields.drop_last()).push(trim(fields.last()))
    }
}

/// Position of the first `'/'` in `s`, if any.
pub open spec fn first_slash(s: Seq<char>) -> Option<int>
    decreases s.len(),
{
    if s.len() == 0 {
        None
    } else if s[0] == '/' {
        Some(0)
    } else {
        match first_slash(s.drop_first()) {
            Some(k) => Some(k + 1),
            None => None,
        }
    }
}

/// `first_slash` finds the first `'/'`: the position it gives holds a
/// slash and no earlier one does, and it gives none only when the text holds
/// no slash at all.
pub proof fn lemma_first_slash_is_first(s: Seq<char>)
    ensures
        first_slash(s) matches Some(k) ==> 0 <= k < s.len() && s[k] == '/' && forall|j: int|
            0 <= j < k ==> s[j] != '/',
        first_slash(s) is None ==> forall|j: int| 0 <= j < s.len() ==> s[j] != '/',
    decreases s.len(),
{
    if s.len() > 0 && s[0] != '/' {
        lemma_first_slash_is_first(s.drop_first());
        assert forall|j: int| 1 <= j < s.len() implies s[j] == s.drop_first()[j - 1] by {}
    }
}

/// The text of one scalar: a plain number, or a numerator and a denominator
/// split at the first `'/'`, each trimmed.
pub open spec fn scalar_parts(token: Seq<char>) -> (Seq<char>, Option<Seq<char>>) {
    match first_slash(token) {
        Some(k) => (trim(token.take(k)), Some(trim(token.skip(k + 1)))),
        None => (trim(token), None),
    }
}

/// The scalar texts of a comma-separated shell-weight list such as
/// `"5/12,1,1/2"`; `None` when the list holds no non-blank entry.
pub open spec fn shell_terms(input: Seq<char>) -> Option<Seq<(Seq<char>, Option<Seq<char>>)>> {
    let tokens = nonempty_trimmed(split_commas(input));
    if tokens.len() == 0 {
        None
    } else {
        Some(tokens.map_values(|t: Seq<char>| scalar_parts(t)))
    }
}

/// The text of one shell weight: `numerator`, or `numerator / denominator`.
pub struct ScalarText {
    pub numerator: Vec<char>,
    pub denominator: Option<Vec<char>>,
}

/// The abstract value of a `ScalarText`.
pub open spec fn scalar_view(t: ScalarText) -> (Seq<char>, Option<Seq<char>>) {
    (
        t.numerator@,
        match t.denominator {
            Some(d) => Some(d@),
            None => None,
        },
    )
}

proof fn lemma_first_slash_found(s: Seq<char>, k: int)
    requires
        0 <= k < s.len(),
        s[k] == '/',
        forall|j: int| 0 <= j < k ==> s[j] != '/',
    ensures
        first_slash(s) == Some(k),
    decreases k,
{
    if k > 0 {
        assert(s[0] != '/');
        lemma_first_slash_found(s.drop_first(), k - 1);
    }
}

proof fn lemma_first_slash_absent(s: Seq<char>)
    requires
        forall|j: int| 0 <= j < s.len() ==> s[j] != '/',
    ensures
        first_slash(s) is None,
    decreases s.len(),
{
    if s.len() > 0 {
        lemma_first_slash_absent(s.drop_first());
    }
}

/// Splits one trimmed shell-weight token into its numerator and optional
/// denominator texts.
fn split_scalar(token: &Vec<char>) -> (t: ScalarText)
    ensures
        scalar_view(t) == scalar_parts(token@),
{
    let mut k: usize = 0;
    while k < token.len() && token[k] != '/'
        invariant
            k <= token@.len(),
            forall|j: int| 0 <= j < k ==> token@[j] != '/',
        decreases token@.len() - k,
    {
        k = k + 1;
    }
    if k < token.len() {
        proof {
            lemma_first_slash_found(token@, k as int);
        }
        let mut before: Vec<char> = Vec::new();
        let mut j: usize = 0;
        while j < k
            invariant
                j <= k < token@.len(),
                before@ == token@.take(j as int),
            decreases k - j,
        {
            before.push(token[j]);
            proof {
                assert(before@ =~= token@.take(j + 1));
            }
            j = j + 1;
        }
        let mut after: Vec<char> = Vec::new();
        let mut j: usize = k + 1;
        while j < token.len()
            invariant
                k + 1 <= j <= token@.len(),
                after@ == token@.subrange(k + 1, j as int),
            decreases token@.len() - j,
        {
            after.push(token[j]);
            proof {
                assert(after@ =~= token@.subrange(k + 1, j + 1));
            }
            j = j + 1;
        }
        proof {
            assert(token@.subrange(k + 1, token@.len() as int) =~= token@.skip(k + 1));
        }
        ScalarText { numerator: trim_chars(&before), denominator: Some(trim_chars(&after)) }
    } else {
        proof {
            lemma_first_slash_absent(token@);
        }
        ScalarText { numerator: trim_chars(token), denominator: None }
    }
}

/// Splits a comma-separated shell-weight list such as `"5/12,1,1/2"` into
/// the texts of its non-blank entries, each a plain number or a fraction.
/// `None` when no entry is left. Reading the numbers is up to the caller.
pub fn shell_weight_terms(input: &str) -> (r: Option<Vec<ScalarText>>)
    ensures
        match shell_terms(input@) {
            Some(terms) => r matches Some(v) && v@.map_values(|t: ScalarText| scalar_view(t)) == terms,
            None => r is None,
        },
{
    let chars = chars_of(input);
    let mut fields: Vec<Vec<char>> = Vec::new();
    let mut current: Vec<char> = Vec::new();
    let mut i: usize = 0;
    proof {
        assert(chars@.take(0) =~= Seq::<char>::empty());
        assert(fields@.map_values(|f: Vec<char>| f@).push(current@) =~= split_commas(chars@.take(0)));
    }
    while i < chars.len()
        invariant
            i <= chars@.len(),
            chars@ == input@,
            fields@.map_values(|f: Vec<char>| f@).push(current@) == split_commas(chars@.take(i as int)),
        decreases chars@.len() - i,
    {
        let c = chars[i];
        let ghost prev = fields@.map_values(|f: Vec<char>| f@);
        proof {
            assert(chars@.take(i + 1).drop_last() =~= chars@.take(i as int));
        }
        if c == ',' {
            let finished = current;
            fields.push(finished);
            current = Vec::new();
            proof {
                assert(fields@.map_values(|f: Vec<char>| f@) =~= prev.push(finished@));
                assert(fields@.map_values(|f: Vec<char>| f@).push(current@) =~= split_commas(chars@.take(i + 1)));
            }
        } else {
            let ghost before = current@;
            current.push(c);
            proof {
                assert(fields@.map_values(|f: Vec<char>| f@).push(current@) =~= prev.push(before).update(
                    prev.len() as int,
                    before.push(c),
                ));
            }
        }
        i = i + 1;
    }
    let last = current;
    fields.push(last);
    let ghost all = split_commas(input@);
    proof {
        assert(chars@.take(chars@.len() as int) =~= chars@);
        assert(fields@.map_values(|f: Vec<char>| f@) =~= all);
    }
    let mut tokens: Vec<Vec<char>> = Vec::new();
    let mut k: usize = 0;
    proof {
        assert(all.take(0) =~= Seq::<Seq<char>>::empty());
        assert(tokens@.map_values(|f: Vec<char>| f@) =~= nonempty_trimmed(all.take(0)));
    }
    while k < fields.len()
        invariant
            k <= fields@.len(),
            fields@.map_values(|f: Vec<char>| f@) == all,
            tokens@.map_values(|f: Vec<char>| f@) == nonempty_trimmed(all.take(k as int)),
        decreases fields@.len() - k,
    {
        let t = trim_chars(&fields[k]);
        let ghost prev = tokens@.map_values(|f: Vec<char>| f@);
        proof {
            assert(all.take(k + 1).drop_last() =~= all.take(k as int));
            assert(all[k as int] == fields@[k as int]@);
        }
        if t.len() > 0 {
            let ghost tv = t@;
            tokens.push(t);
            proof {
                assert(tokens@.map_values(|f: Vec<char>| f@) =~= prev.push(tv));
            }
        }
        k = k + 1;
    }
    let ghost toks = nonempty_trimmed(all);
    proof {
        assert(all.take(all.len() as int) =~= all);
    }
    if tokens.len() == 0 {
        return None;
    }
    let mut out: Vec<ScalarText> = Vec::new();
    let mut j: usize = 0;
    while j < tokens.len()
        invariant
            j <= tokens@.len(),
            tokens@.map_values(|f: Vec<char>| f@) == toks,
            out@.len() == j,
            forall|q: int| 0 <= q < j ==> scalar_view(#[trigger] out@[q]) == scalar_parts(toks[q]),
        decreases tokens@.len() - j,
    {
        proof {
            assert(toks[j as int] == tokens@[j as int]@);
        }
        let term = split_scalar(&tokens[j]);
        out.push(term);
        j = j + 1;
    }
    proof {
        let want = toks.map_values(|t: Seq<char>| scalar_parts(t));
        assert(out@.map_values(|t: ScalarText| scalar_view(t)) =~= want);
    }
    Some(out)
}

/// Smallest side of a world built for a species.
pub const MIN_SPECIES_WORLD_SIZE: usize = 128;
/// Largest side of a world built for a species.
pub const MAX_SPECIES_WORLD_SIZE: usize = 512;
/// Species world sides are multiples of this.
pub const WORLD_SIZE_GRANULARITY: usize = 32;

/// Room left around a species pattern: ten kernel radii, and at least 96 cells.
pub open spec fn species_padding(radius: nat) -> nat {
    let r = if radius >= 1 { radius } else { 1 };
    if r * 10 >= 96 {
        r * 10
    } else {
        96
    }
}

/// The pattern's larger side plus the padding.
pub open spec fn desired_world_size(rows: nat, cols: nat, radius: nat) -> nat {
    (if rows >= cols { rows } else { cols }) + species_padding(radius)
}

/// The desired size rounded up to a multiple of 32 and clamped to `128..=512`.
pub open spec fn world_size_for(rows: nat, cols: nat, radius: nat) -> nat {
    let d = desired_world_size(rows, cols, radius);
    let rounded = ((d + 31) / 32) * 32;
    if rounded < 128 {
        128
    } else if rounded > 512 {
        512
    } else {
        rounded
    }
}

/// Whether `recommended_world_size` can be asked for a pattern of `rows` by
/// `cols` cells and this kernel radius without its arithmetic overflowing.
pub fn desired_size_fits(rows: usize, cols: usize, radius: usize) -> (ok: bool)
    ensures
        ok == ((if radius >= 1 { radius as int } else { 1 }) * 10 <= usize::MAX
            && desired_world_size(rows as nat, cols as nat, radius as nat) + 31 <= usize::MAX),
{
    let r = if radius >= 1 { radius } else { 1 };
    match r.checked_mul(10) {
        None => false,
        Some(scaled) => {
            let padding = if scaled >= 96 { scaled } else { 96 };
            let extent = if rows >= cols { rows } else { cols };
            match extent.checked_add(padding) {
                None => false,
                Some(desired) => desired.checked_add(31).is_some(),
            }
        }
    }
}

/// The side of the square world that a species pattern is loaded into: the
/// pattern's larger side plus ten kernel radii of room (at least 96 cells),
/// rounded up to a multiple of 32 and kept within `128..=512`.
pub fn recommended_world_size<T>(pattern: &Grid<T>, radius: usize) -> (size: usize)
    requires
        (if radius >= 1 { radius as int } else { 1 }) * 10 <= usize::MAX,
        desired_world_size(pattern@.len(), pattern.width(), radius as nat) + 31 <= usize::MAX,
    ensures
        size == world_size_for(pattern@.len(), pattern.width(), radius as nat),
        MIN_SPECIES_WORLD_SIZE <= size <= MAX_SPECIES_WORLD_SIZE,
        size % WORLD_SIZE_GRANULARITY == 0,
        desired_world_size(pattern@.len(), pattern.width(), radius as nat) <= MAX_SPECIES_WORLD_SIZE
            ==> desired_world_size(pattern@.len(), pattern.width(), radius as nat) <= size,
        size == MIN_SPECIES_WORLD_SIZE || size == MAX_SPECIES_WORLD_SIZE || size
            < desired_world_size(pattern@.len(), pattern.width(), radius as nat) + WORLD_SIZE_GRANULARITY,
        size >= MAX_SPECIES_WORLD_SIZE || (size >= pattern@.len() + 10 * radius && size >= pattern.width()
            + 10 * radius && size >= pattern@.len() + 96 && size >= pattern.width() + 96),
{
    let r = if radius >= 1 { radius } else { 1 };
    let padding = if r * 10 >= 96 { r * 10 } else { 96 };
    let rows = pattern.nrows();
    let cols = pattern.ncols();
    let extent = if rows >= cols { rows } else { cols };
    let desired = extent + padding;
    let q = desired / WORLD_SIZE_GRANULARITY + if desired % WORLD_SIZE_GRANULARITY != 0 { 1 } else { 0 };
    proof {
        assert(q == (desired + 31) / 32) by (nonlinear_arith)
            requires
                q == desired / 32 + if desired % 32 != 0 { 1int } else { 0int },
        ;
        assert(q * 32 <= desired + 31) by (nonlinear_arith)
            requires
                q == (desired + 31) / 32,
        ;
        assert(desired <= q * 32) by (nonlinear_arith)
            requires
                q == (desired + 31) / 32,
        ;
        assert((q * 32) % 32 == 0) by (nonlinear_arith);
    }
    let rounded = q * WORLD_SIZE_GRANULARITY;
    if rounded < MIN_SPECIES_WORLD_SIZE {
        MIN_SPECIES_WORLD_SIZE
    } else if rounded > MAX_SPECIES_WORLD_SIZE {
        MAX_SPECIES_WORLD_SIZE
    } else {
        rounded
    }
}

/// A `rows` by `cols` world of empty cells (level 0) with the pattern placed
/// in its middle (cropped symmetrically where it does not fit).
pub fn centered_pattern_world(pattern: &Grid<u32>, rows: usize, cols: usize) -> (world: Grid<u32>)
    ensures
        world@ == centered(pattern@, pattern.width(), rows as nat, cols as nat, 0u32),
        world.width() == cols,
{
    pattern.centered_copy(rows, cols, 0)
}

/// A pattern whose larger side plus padding stays within the largest world
/// is placed whole, centred, in the square world of the recommended size:
/// every one of its cells appears, shifted by the margins, so a pattern with
/// a live cell yields a world with a live cell.
pub proof fn lemma_species_world_keeps_pattern(pattern: Seq<Seq<u32>>, cols: nat, radius: nat)
    requires
        is_rect(pattern, cols),
        desired_world_size(pattern.len(), cols, radius) <= MAX_SPECIES_WORLD_SIZE,
    ensures
        pattern.len() <= world_size_for(pattern.len(), cols, radius),
        cols <= world_size_for(pattern.len(), cols, radius),
        forall|r: int, c: int|
            0 <= r < pattern.len() && 0 <= c < cols ==> #[trigger] centered(
                pattern,
                cols,
                world_size_for(pattern.len(), cols, radius),
                world_size_for(pattern.len(), cols, radius),
                0u32,
            )[r + (world_size_for(pattern.len(), cols, radius) - pattern.len()) / 2][c + (world_size_for(
                pattern.len(),
                cols,
                radius,
            ) - cols) / 2] == pattern[r][c],
{
    let d = desired_world_size(pattern.len(), cols, radius);
    let size = world_size_for(pattern.len(), cols, radius);
    assert(d <= ((d + 31) / 32) * 32) by (nonlinear_arith);
    lemma_centered_keeps_fitting_source(pattern, cols, size, size, 0u32);
}

} // verus!
