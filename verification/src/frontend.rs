//! Discrete rules of the interactive front end: colour scale labels, world
//! resizing, the explorer's moves on kernel side and peak count, and food
//! placement.

use vstd::prelude::*;
use rand::Rng;
use crate::grid::{centered, Grid};
use crate::lenia::signed_reading;

verus! {

/// Colour map used to render cell values.
#[derive(Clone, Copy, Debug, PartialEq, Eq, Structural)]
pub enum ColorScale {
    Grayscale,
    Viridis,
    Plasma,
    Inferno,
    Ocean,
}

/// The label shown for a colour scale.
pub open spec fn scale_label(s: ColorScale) -> Seq<char> {
    match s {
        ColorScale::Grayscale => "GRAYSCALE"@,
        ColorScale::Viridis => "VIRIDIS"@,
        ColorScale::Plasma => "PLASMA"@,
        ColorScale::Inferno => "INFERNO"@,
        ColorScale::Ocean => "OCEAN"@,
    }
}

impl ColorScale {
    /// Upper-case label of the colour scale.
    pub fn as_str(self) -> (s: &'static str)
        ensures
            s@ == scale_label(self),
    {
        match self {
            ColorScale::Grayscale => "GRAYSCALE",
            ColorScale::Viridis => "VIRIDIS",
            ColorScale::Plasma => "PLASMA",
            ColorScale::Inferno => "INFERNO",
            ColorScale::Ocean => "OCEAN",
        }
    }
}

/// Side of the world the front end starts with.
pub const WORLD_SIZE: usize = 256;
/// Smallest world side the front end allows.
pub const MIN_WORLD_SIZE: usize = 32;
/// Largest world side the front end allows.
pub const MAX_WORLD_SIZE: usize = 1024;

/// A requested world side kept within `MIN_WORLD_SIZE..=MAX_WORLD_SIZE`.
pub open spec fn clamp_side(n: nat) -> nat {
    if n < 32 {
        32
    } else if n > 1024 {
        1024
    } else {
        n
    }
}

/// A requested world side kept within the allowed range.
pub fn clamp_world_side(n: usize) -> (m: usize)
    ensures
        m == clamp_side(n as nat),
        MIN_WORLD_SIZE <= m <= MAX_WORLD_SIZE,
        MIN_WORLD_SIZE <= n <= MAX_WORLD_SIZE ==> m == n,
        n < MIN_WORLD_SIZE ==> m == MIN_WORLD_SIZE,
        n > MAX_WORLD_SIZE ==> m == MAX_WORLD_SIZE,
{
    if n < MIN_WORLD_SIZE {
        MIN_WORLD_SIZE
    } else if n > MAX_WORLD_SIZE {
        MAX_WORLD_SIZE
    } else {
        n
    }
}

/// The world resized to the requested sides (each kept within the allowed
/// range), its middle kept centred and new cells set to `fill`.
pub fn centered_resized_copy<T: Copy>(world: &Grid<T>, rows: usize, cols: usize, fill: T) -> (out: Grid<T>)
    ensures
        out@ == centered(world@, world.width(), clamp_side(rows as nat), clamp_side(cols as nat), fill),
        out.width() == clamp_side(cols as nat),
{
    let rows = clamp_world_side(rows);
    let cols = clamp_world_side(cols);
    world.centered_copy(rows, cols, fill)
}

/// The sides a world of `current_rows` by `current_cols` takes when the user
/// asks for `rows` by `cols`: `None` when the clamped request is the current
/// size, so that nothing is to be done.
pub fn resize_target(current_rows: usize, current_cols: usize, rows: usize, cols: usize) -> (t: Option<(usize, usize)>)
    ensures
        t is None <==> (clamp_side(rows as nat) == current_rows && clamp_side(cols as nat) == current_cols),
        t matches Some(p) ==> p.0 == clamp_side(rows as nat) && p.1 == clamp_side(cols as nat),
{
    let rows = clamp_world_side(rows);
    let cols = clamp_world_side(cols);
    if rows == current_rows && cols == current_cols {
        None
    } else {
        Some((rows, cols))
    }
}

/// `v` kept within `lo..=hi`.
pub open spec fn clamp_int(v: int, lo: int, hi: int) -> int {
    if v < lo {
        lo
    } else if v > hi {
        hi
    } else {
        v
    }
}

/// `n | 1`: the odd number at or just above `n`.
pub open spec fn with_low_bit(n: nat) -> nat {
    if n % 2 == 0 {
        n + 1
    } else {
        n
    }
}

/// The kernel side after one explorer mutation: when `step` is given the side
/// moves by two cells (up for `true`, down for `false`) within `3..=99`; in
/// every case it is then made odd.
pub open spec fn mutated_side(kernel_size: nat, step: Option<bool>) -> nat {
    match step {
        Some(grow) => with_low_bit(
            clamp_int(signed_reading(kernel_size) + if grow { 2int } else { -2int }, 3, 99) as nat,
        ),
        None => with_low_bit(kernel_size),
    }
}

/// The explorer's move on the kernel side: `step` says whether the side was
/// chosen to change and in which direction.
pub fn mutated_kernel_size(kernel_size: usize, step: Option<bool>) -> (k: usize)
    requires
        !(step == Some(true) && isize::MAX - 2 < kernel_size <= isize::MAX),
        !(step == Some(false) && isize::MAX < kernel_size <= isize::MAX + 2),
    ensures
        k == mutated_side(kernel_size as nat, step),
        k % 2 == 1,
        step is Some ==> 3 <= k <= 99,
        step is None ==> k == kernel_size + 1 - kernel_size % 2,
        step == Some(true) && 1 <= kernel_size <= 97 ==> k == kernel_size + 3 - kernel_size % 2,
        step == Some(false) && 5 <= kernel_size <= 101 ==> k == kernel_size - 1 - kernel_size % 2,
{
    let base: usize = match step {
        Some(grow) => {
            if kernel_size > isize::MAX as usize {
                3
            } else {
                let v = kernel_size as isize + if grow { 2isize } else { -2isize };
                if v < 3 {
                    3
                } else if v > 99 {
                    99
                } else {
                    v as usize
                }
            }
        },
        None => kernel_size,
    };
    assert(base | 1 == if base % 2 == 0 { (base + 1) as usize } else { base }) by (bit_vector);
    base | 1
}

/// The peak count after one explorer mutation: when `step` is given it moves
/// by one (up for `true`, down for `false`) within `1..=8`.
pub open spec fn mutated_peaks(num_peaks: nat, step: Option<bool>) -> nat {
    match step {
        Some(grow) => clamp_int(signed_reading(num_peaks) + if grow { 1int } else { -1int }, 1, 8) as nat,
        None => num_peaks,
    }
}

/// The explorer's move on the number of kernel peaks.
pub fn mutated_num_peaks(num_peaks: usize, step: Option<bool>) -> (n: usize)
    requires
        !(step == Some(true) && num_peaks == isize::MAX),
        !(step == Some(false) && num_peaks == isize::MAX + 1),
    ensures
        n == mutated_peaks(num_peaks as nat, step),
        step is Some ==> 1 <= n <= 8,
        step is None ==> n == num_peaks,
        step == Some(true) && num_peaks <= 7 ==> n == num_peaks + 1,
        step == Some(true) && 8 <= num_peaks <= isize::MAX ==> n == 8,
        step == Some(false) && 2 <= num_peaks <= 9 ==> n == num_peaks - 1,
        step == Some(false) && num_peaks <= 1 ==> n == 1,
        step == Some(false) && 9 <= num_peaks <= isize::MAX ==> n == 8,
{
    match step {
        Some(grow) => {
            if num_peaks > isize::MAX as usize {
                1
            } else {
                let v = num_peaks as isize + if grow { 1isize } else { -1isize };
                if v < 1 {
                    1
                } else if v > 8 {
                    8
                } else {
                    v as usize
                }
            }
        },
        None => num_peaks,
    }
}

/// Within `1..=8` one explorer step moves the peak count by exactly one, up
/// or down as asked, except that it stays at 1 when asked to go below 1 and
/// at 8 when asked to go above 8; a step up and then a step down (or the
/// reverse) away from the ends comes back to the start.
pub proof fn lemma_peak_step_moves_by_one(num_peaks: nat, grow: bool)
    requires
        1 <= num_peaks <= 8,
    ensures
        mutated_peaks(num_peaks, Some(grow)) == if grow {
            if num_peaks == 8 { 8 } else { num_peaks + 1 }
        } else {
            if num_peaks == 1 { 1 } else { (num_peaks - 1) as nat }
        },
        mutated_peaks(num_peaks, None) == num_peaks,
        num_peaks <= 7 ==> mutated_peaks(mutated_peaks(num_peaks, Some(true)), Some(false)) == num_peaks,
        num_peaks >= 2 ==> mutated_peaks(mutated_peaks(num_peaks, Some(false)), Some(true)) == num_peaks,
{
}

/// Within the explorer's range `3..=99` an odd kernel side moves by exactly
/// two cells, up or down as asked, and stays odd; a step up and then a step
/// down away from the ends comes back to the start.
pub proof fn lemma_side_step_moves_by_two(kernel_size: nat, grow: bool)
    requires
        3 <= kernel_size <= 99,
        kernel_size % 2 == 1,
    ensures
        mutated_side(kernel_size, Some(grow)) == if grow {
            if kernel_size == 99 { 99 } else { kernel_size + 2 }
        } else {
            if kernel_size == 3 { 3 } else { (kernel_size - 2) as nat }
        },
        mutated_side(kernel_size, None) == kernel_size,
        kernel_size <= 97 ==> mutated_side(mutated_side(kernel_size, Some(true)), Some(false)) == kernel_size,
        kernel_size >= 5 ==> mutated_side(mutated_side(kernel_size, Some(false)), Some(true)) == kernel_size,
{
}

/// `rand::thread_rng().gen_range(0..n)`: a value drawn from `0..n` by the
/// thread's random generator. The contract claims only that the value lies
/// in `0..n` (the call panics on an empty range, which `requires` leaves
/// out); which value comes back is left open.
#[verifier::external_body]
fn random_below(n: usize) -> (r: usize)
    requires
        n > 0,
    ensures
        r < n,
{
    rand::thread_rng().gen_range(0..n)
}

/// Whether every position is a `(col, row)` inside a `rows` by `cols` world.
pub open spec fn positions_in_world(p: Seq<(usize, usize)>, rows: nat, cols: nat) -> bool {
    forall|i: int| 0 <= i < p.len() ==> (#[trigger] p[i]).0 < cols && p[i].1 < rows
}

/// `count` food source positions `(col, row)` drawn at random inside a `rows`
/// by `cols` world (column first, then row, for each source).
pub fn random_food_sources(count: usize, rows: usize, cols: usize) -> (p: Vec<(usize, usize)>)
    requires
        count > 0 ==> rows > 0 && cols > 0,
    ensures
        p@.len() == count,
        positions_in_world(p@, rows as nat, cols as nat),
{
    let mut p: Vec<(usize, usize)> = Vec::new();
    for i in 0..count
        invariant
            p@.len() == i,
            count > 0 ==> rows > 0 && cols > 0,
            positions_in_world(p@, rows as nat, cols as nat),
    {
        let col = random_below(cols);
        let row = random_below(rows);
        p.push((col, row));
    }
    p
}

/// Whether food is dropped after step number `frame_counter`: food is on and
/// the counter is a multiple of the refresh period.
pub open spec fn food_due(enabled: bool, refresh_period: nat, frame_counter: nat) -> bool {
    enabled && refresh_period > 0 && frame_counter % refresh_period == 0
}

/// Whether the periodic food drop happens after step number `frame_counter`.
pub fn food_refresh_due(enabled: bool, refresh_period: usize, frame_counter: usize) -> (due: bool)
    ensures
        due == food_due(enabled, refresh_period as nat, frame_counter as nat),
{
    enabled && refresh_period > 0 && frame_counter % refresh_period == 0
}

/// Food drops recur with the refresh period: a step is a drop step exactly
/// when the step one period later is.
pub proof fn lemma_food_due_periodic(enabled: bool, refresh_period: nat, frame_counter: nat)
    ensures
        food_due(enabled, refresh_period, frame_counter) == food_due(enabled, refresh_period, frame_counter + refresh_period),
        food_due(enabled, refresh_period, 0) == (enabled && refresh_period > 0),
{
    if refresh_period > 0 {
        vstd::arithmetic::div_mod::lemma_mod_add_multiples_vanish(frame_counter as int, refresh_period as int);
        assert(frame_counter + refresh_period == refresh_period + frame_counter);
    }
}

/// The positions `(col, row)` where one food refresh drops blobs.
/// Nothing when food is off. With `randomize` set, `source_count` fresh
/// random positions, the stored ones left alone. Otherwise the stored
/// positions, drawn anew first when their number is not `source_count`.
pub fn food_drop_positions(
    enabled: bool,
    randomize: bool,
    source_count: usize,
    stored: &mut Vec<(usize, usize)>,
    rows: usize,
    cols: usize,
) -> (drops: Vec<(usize, usize)>)
    requires
        enabled && source_count > 0 ==> rows > 0 && cols > 0,
    ensures
        !enabled ==> drops@.len() == 0 && final(stored)@ == old(stored)@,
        enabled && randomize ==> drops@.len() == source_count && positions_in_world(drops@, rows as nat, cols as nat)
            && final(stored)@ == old(stored)@,
        enabled && !randomize && old(stored)@.len() == source_count ==> drops@ == old(stored)@
            && final(stored)@ == old(stored)@,
        enabled && !randomize && old(stored)@.len() != source_count ==> drops@ == final(stored)@
            && final(stored)@.len() == source_count && positions_in_world(final(stored)@, rows as nat, cols as nat),
{
    if !enabled {
        return Vec::new();
    }
    if randomize {
        return random_food_sources(source_count, rows, cols);
    }
    if stored.len() != source_count {
        *stored = random_food_sources(source_count, rows, cols);
    }
    let mut drops: Vec<(usize, usize)> = Vec::new();
    for i in 0..stored.len()
        invariant
            drops@ == stored@.take(i as int),
    {
        drops.push(stored[i]);
        proof {
            assert(drops@ =~= stored@.take(i + 1));
        }
    }
    proof {
        assert(stored@.take(stored@.len() as int) =~= stored@);
    }
    drops
}

} // verus!
