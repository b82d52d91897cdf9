//! Simulation parameter modes and their labels and archive codes, and the
//! integer geometry of a step: toroidal wrapping, kernel sides, per-peak
//! lists, and the cells a brush or a food blob touches.

use vstd::prelude::*;

verus! {

/// Growth function applied to the convolution result.
#[derive(Clone, Copy, Debug, PartialEq, Eq, Structural)]
pub enum GrowthFuncType {
    Polynomial,
    Exponential,
    Step,
}

/// Within-band profile of the official Lenia shell kernel.
#[derive(Clone, Copy, Debug, PartialEq, Eq, Structural)]
pub enum KernelCoreType {
    Polynomial,
    Exponential,
    Step,
    Staircase,
}

/// Which kernel family the simulation uses.
#[derive(Clone, Copy, Debug, PartialEq, Eq, Structural)]
pub enum KernelMode {
    CenteredGaussian,
    GaussianRings,
    LeniaBands,
}

/// The label shown for a growth function.
pub open spec fn growth_label(t: GrowthFuncType) -> Seq<char> {
    match t {
        GrowthFuncType::Polynomial => "POLYNOMIAL"@,
        GrowthFuncType::Exponential => "EXPONENTIAL"@,
        GrowthFuncType::Step => "STEP"@,
    }
}

/// The label shown for a kernel core.
pub open spec fn core_label(t: KernelCoreType) -> Seq<char> {
    match t {
        KernelCoreType::Polynomial => "POLYNOMIAL"@,
        KernelCoreType::Exponential => "EXPONENTIAL"@,
        KernelCoreType::Step => "STEP"@,
        KernelCoreType::Staircase => "STAIRCASE"@,
    }
}

/// The label shown for a kernel mode.
pub open spec fn mode_label(m: KernelMode) -> Seq<char> {
    match m {
        KernelMode::CenteredGaussian => "CENTERED_GAUSSIAN"@,
        KernelMode::GaussianRings => "GAUSSIAN_RINGS"@,
        KernelMode::LeniaBands => "LENIA_BANDS"@,
    }
}

/// The archived Lenia `gn` index of a growth function (1-based).
pub open spec fn growth_official_index(t: GrowthFuncType) -> int {
    match t {
        GrowthFuncType::Polynomial => 1,
        GrowthFuncType::Exponential => 2,
        GrowthFuncType::Step => 3,
    }
}

/// The archived Lenia `kn` index of a kernel core (1-based).
pub open spec fn core_official_index(t: KernelCoreType) -> int {
    match t {
        KernelCoreType::Polynomial => 1,
        KernelCoreType::Exponential => 2,
        KernelCoreType::Step => 3,
        KernelCoreType::Staircase => 4,
    }
}

/// The C ABI code of a growth function (its discriminant in the exported interface).
pub open spec fn growth_ffi_code(t: GrowthFuncType) -> int {
    match t {
        GrowthFuncType::Polynomial => 0,
        GrowthFuncType::Exponential => 1,
        GrowthFuncType::Step => 2,
    }
}

impl GrowthFuncType {
    /// Upper-case label of the growth function.
    pub fn as_str(self) -> (s: &'static str)
        ensures
            s@ == growth_label(self),
    {
        match self {
            GrowthFuncType::Polynomial => "POLYNOMIAL",
            GrowthFuncType::Exponential => "EXPONENTIAL",
            GrowthFuncType::Step => "STEP",
        }
    }

    /// The archived Lenia `gn` index of this growth function.
    pub fn official_index(self) -> (i: usize)
        ensures
            i == growth_official_index(self),
    {
        match self {
            GrowthFuncType::Polynomial => 1,
            GrowthFuncType::Exponential => 2,
            GrowthFuncType::Step => 3,
        }
    }

    /// Maps an archived Lenia `gn` index to a growth function; `None` outside `1..=3`.
    pub fn from_official_index(index: usize) -> (r: Option<GrowthFuncType>)
        ensures
            r matches Some(t) ==> growth_official_index(t) == index,
            r is None <==> !(1 <= index <= 3),
            index == 1 ==> r == Some(GrowthFuncType::Polynomial),
            index == 2 ==> r == Some(GrowthFuncType::Exponential),
            index == 3 ==> r == Some(GrowthFuncType::Step),
    {
        match index {
            1 => Some(GrowthFuncType::Polynomial),
            2 => Some(GrowthFuncType::Exponential),
            3 => Some(GrowthFuncType::Step),
            _ => None,
        }
    }

    /// The C ABI code of this growth function.
    pub fn ffi_code(self) -> (c: i32)
        ensures
            c == growth_ffi_code(self),
            c == growth_official_index(self) - 1,
            self == GrowthFuncType::Polynomial ==> c == 0,
            self == GrowthFuncType::Exponential ==> c == 1,
            self == GrowthFuncType::Step ==> c == 2,
    {
        match self {
            GrowthFuncType::Polynomial => 0,
            GrowthFuncType::Exponential => 1,
            GrowthFuncType::Step => 2,
        }
    }

    /// Maps a C ABI code to a growth function; `None` outside `0..=2`.
    pub fn from_ffi_code(code: i32) -> (r: Option<GrowthFuncType>)
        ensures
            r matches Some(t) ==> growth_ffi_code(t) == code,
            r matches Some(t) ==> growth_official_index(t) == code + 1,
            r is None <==> !(0 <= code <= 2),
            code == 0 ==> r == Some(GrowthFuncType::Polynomial),
            code == 1 ==> r == Some(GrowthFuncType::Exponential),
            code == 2 ==> r == Some(GrowthFuncType::Step),
    {
        match code {
            0 => Some(GrowthFuncType::Polynomial),
            1 => Some(GrowthFuncType::Exponential),
            2 => Some(GrowthFuncType::Step),
            _ => None,
        }
    }
}

impl KernelCoreType {
    /// Upper-case label of the kernel core.
    pub fn as_str(self) -> (s: &'static str)
        ensures
            s@ == core_label(self),
    {
        match self {
            KernelCoreType::Polynomial => "POLYNOMIAL",
            KernelCoreType::Exponential => "EXPONENTIAL",
            KernelCoreType::Step => "STEP",
            KernelCoreType::Staircase => "STAIRCASE",
        }
    }

    /// The archived Lenia `kn` index of this kernel core.
    pub fn official_index(self) -> (i: usize)
        ensures
            i == core_official_index(self),
    {
        match self {
            KernelCoreType::Polynomial => 1,
            KernelCoreType::Exponential => 2,
            KernelCoreType::Step => 3,
            KernelCoreType::Staircase => 4,
        }
    }

    /// Maps an archived Lenia `kn` index to a kernel core; `None` outside `1..=4`.
    pub fn from_official_index(index: usize) -> (r: Option<KernelCoreType>)
        ensures
            r matches Some(t) ==> core_official_index(t) == index,
            r is None <==> !(1 <= index <= 4),
            index == 1 ==> r == Some(KernelCoreType::Polynomial),
            index == 2 ==> r == Some(KernelCoreType::Exponential),
            index == 3 ==> r == Some(KernelCoreType::Step),
            index == 4 ==> r == Some(KernelCoreType::Staircase),
    {
        match index {
            1 => Some(KernelCoreType::Polynomial),
            2 => Some(KernelCoreType::Exponential),
            3 => Some(KernelCoreType::Step),
            4 => Some(KernelCoreType::Staircase),
            _ => None,
        }
    }
}

impl KernelMode {
    /// Upper-case label of the kernel mode.
    pub fn as_str(self) -> (s: &'static str)
        ensures
            s@ == mode_label(self),
    {
        match self {
            KernelMode::CenteredGaussian => "CENTERED_GAUSSIAN",
            KernelMode::GaussianRings => "GAUSSIAN_RINGS",
            KernelMode::LeniaBands => "LENIA_BANDS",
        }
    }
}

/// Reading back the archived index of a growth function gives the same function.
pub proof fn lemma_growth_index_round_trip(t: GrowthFuncType)
    ensures
        1 <= growth_official_index(t) <= 3,
        0 <= growth_ffi_code(t) <= 2,
        forall|u: GrowthFuncType| growth_official_index(u) == growth_official_index(t) ==> u == t,
        forall|u: GrowthFuncType| growth_ffi_code(u) == growth_ffi_code(t) ==> u == t,
{
}

/// The C ABI code of a growth function is one less than its archived `gn`
/// index: both number the functions in their declared order, Polynomial,
/// Exponential, Step, the code from 0 and the index from 1.
pub proof fn lemma_growth_code_follows_index(t: GrowthFuncType)
    ensures
        growth_ffi_code(t) == growth_official_index(t) - 1,
        growth_ffi_code(t) == 0 <==> t == GrowthFuncType::Polynomial,
        growth_ffi_code(t) == 1 <==> t == GrowthFuncType::Exponential,
        growth_ffi_code(t) == 2 <==> t == GrowthFuncType::Step,
        growth_official_index(t) == 1 <==> t == GrowthFuncType::Polynomial,
        growth_official_index(t) == 2 <==> t == GrowthFuncType::Exponential,
        growth_official_index(t) == 3 <==> t == GrowthFuncType::Step,
{
}

/// Reading back the archived index of a kernel core gives the same core.
pub proof fn lemma_core_index_round_trip(t: KernelCoreType)
    ensures
        1 <= core_official_index(t) <= 4,
        forall|u: KernelCoreType| core_official_index(u) == core_official_index(t) ==> u == t,
{
}


/// The modulus that `wrap_index` reduces by: `size` read as an `isize`, taken
/// by its absolute value (sizes above `isize::MAX` read as negative numbers).
pub open spec fn wrap_modulus(size: nat) -> nat {
    if size <= isize::MAX {
        size
    } else {
        (usize::MAX + 1 - size) as nat
    }
}

/// `index` reduced into `0..wrap_modulus(size)` (Euclidean remainder).
pub open spec fn wrapped(index: int, size: nat) -> nat {
    (index % (wrap_modulus(size) as int)) as nat
}

/// Toroidal wrap of a possibly negative index onto `0..size`:
/// `index.rem_euclid(size as isize)`. For every size up to `isize::MAX` the
/// result is the index modulo `size`.
pub fn wrap_index(index: isize, size: usize) -> (w: usize)
    requires
        size > 0,
        !(size == usize::MAX && index == isize::MIN),
    ensures
        w == wrapped(index as int, size as nat),
        w < wrap_modulus(size as nat),
        size <= isize::MAX ==> w < size && (w - index) % (size as int) == 0,
{
    let m: usize = if size <= isize::MAX as usize { size } else { usize::MAX - size + 1 };
    assert(m == wrap_modulus(size as nat));
    let w = if index >= 0 {
        let u = index as usize;
        u % m
    } else {
        let a = (-(index + 1)) as usize;
        let ra = a % m;
        proof {
            let qa = a as int / m as int;
            vstd::arithmetic::div_mod::lemma_fundamental_div_mod(a as int, m as int);
            assert(index as int == (m as int) * (-(qa + 1)) + (m - 1 - ra)) by (nonlinear_arith)
                requires
                    a as int == (m as int) * qa + ra,
                    index as int == -(a as int) - 1,
            ;
            vstd::arithmetic::div_mod::lemma_fundamental_div_mod_converse(
                index as int,
                m as int,
                -(qa + 1),
                m - 1 - ra,
            );
        }
        m - 1 - ra
    };
    proof {
        let q = index as int / m as int;
        vstd::arithmetic::div_mod::lemma_fundamental_div_mod(index as int, m as int);
        assert(w as int - index as int == (m as int) * (-q) + 0) by (nonlinear_arith)
            requires
                index as int == (m as int) * q + w,
        ;
        vstd::arithmetic::div_mod::lemma_fundamental_div_mod_converse(
            w as int - index as int,
            m as int,
            -q,
            0,
        );
    }
    w
}

/// For each of `kernel_len` kernel offsets, the source index that a periodic
/// convolution reads: `center + k - kernel_len / 2`, wrapped onto `0..size`.
pub open spec fn periodic_tap(center: nat, kernel_len: nat, size: nat, k: int) -> nat {
    wrapped(center + k - kernel_len / 2, size)
}

/// The source indices, along one axis, that a toroidal convolution reads for
/// output index `center` with a kernel of `kernel_len` cells centred on it.
pub fn periodic_taps(center: usize, kernel_len: usize, size: usize) -> (taps: Vec<usize>)
    requires
        size > 0,
        center <= isize::MAX,
        center + kernel_len <= isize::MAX + 1,
    ensures
        taps@.len() == kernel_len,
        forall|k: int| 0 <= k < kernel_len ==> #[trigger] taps@[k] == periodic_tap(center as nat, kernel_len as nat, size as nat, k),
        forall|k: int| 0 <= k < kernel_len ==> #[trigger] taps@[k] < wrap_modulus(size as nat),
{
    let pad = (kernel_len / 2) as isize;
    let mut taps: Vec<usize> = Vec::new();
    for k in 0..kernel_len
        invariant
            taps@.len() == k,
            size > 0,
            center <= isize::MAX,
            center + kernel_len <= isize::MAX + 1,
            pad == kernel_len / 2,
            forall|j: int| 0 <= j < k ==> #[trigger] taps@[j] == periodic_tap(center as nat, kernel_len as nat, size as nat, j),
            forall|j: int| 0 <= j < k ==> #[trigger] taps@[j] < wrap_modulus(size as nat),
    {
        let index = center as isize + k as isize - pad;
        taps.push(wrap_index(index, size));
    }
    taps
}

/// The taps of a periodic convolution walk the torus one cell at a time:
/// the middle offset of the kernel reads the output index itself, and each
/// next offset reads the cell after the one before, wrapping from the last
/// cell to the first.
pub proof fn lemma_taps_walk_the_torus(center: nat, kernel_len: nat, size: nat, k: int)
    requires
        0 < size <= isize::MAX,
    ensures
        periodic_tap(center, kernel_len, size, (kernel_len / 2) as int) == center % size,
        periodic_tap(center, kernel_len, size, k + 1) == ((periodic_tap(center, kernel_len, size, k)
            + 1) as int) % (size as int),
        periodic_tap(center, kernel_len, size, k) < size,
{
    let x = center + k - kernel_len / 2;
    assert(center + (kernel_len / 2) as int - kernel_len / 2 == center);
    vstd::arithmetic::div_mod::lemma_add_mod_noop(x, 1, size as int);
    if size > 1 {
        vstd::arithmetic::div_mod::lemma_small_mod(1nat, size);
    }
    assert(center + (k + 1) - kernel_len / 2 == x + 1);
}

/// The side of the square kernel actually built for a requested size: at
/// least 1, and odd so that the kernel has a centre cell (`max(1) | 1`).
pub open spec fn odd_size(n: nat) -> nat {
    if n == 0 {
        1
    } else if n % 2 == 0 {
        n + 1
    } else {
        n
    }
}

/// `kernel_size.max(1) | 1`: the kernel side used for a requested size.
pub fn odd_kernel_size(kernel_size: usize) -> (k: usize)
    ensures
        k == odd_size(kernel_size as nat),
        k % 2 == 1,
        k >= kernel_size,
        k >= 1,
        kernel_size >= 1 ==> k <= kernel_size + 1,
        kernel_size % 2 == 1 ==> k == kernel_size,
        kernel_size == 0 ==> k == 1,
{
    let n = if kernel_size >= 1 { kernel_size } else { 1 };
    assert(n | 1 == if n % 2 == 0 { (n + 1) as usize } else { n }) by (bit_vector)
        requires
            n >= 1,
    ;
    n | 1
}

/// Making a kernel side odd twice changes nothing more: the side stays put.
pub proof fn lemma_odd_size_idempotent(n: nat)
    ensures
        odd_size(odd_size(n)) == odd_size(n),
        odd_size(n) % 2 == 1,
        n <= odd_size(n) <= n + 1,
{
}

/// A value list brought to `max(num_peaks, 1)` entries: an empty list counts
/// as `[fallback]`, a short list is extended with copies of its last entry,
/// a long one is cut.
pub open spec fn fit_to_peaks<T>(values: Seq<T>, num_peaks: nat, fallback: T) -> Seq<T> {
    let count = if num_peaks >= 1 { num_peaks } else { 1 };
    let base = if values.len() == 0 { seq![fallback] } else { values };
    Seq::new(count, |i: int| if i < base.len() { base[i] } else { base.last() })
}

/// The per-peak list behind `normalized_betas`: one entry per kernel peak
/// (at least one), padding with the last entry or cutting the excess.
pub fn fit_to_peak_count<T: Copy>(values: &Vec<T>, num_peaks: usize, fallback: T) -> (out: Vec<T>)
    ensures
        out@ == fit_to_peaks(values@, num_peaks as nat, fallback),
        out@.len() == if num_peaks >= 1 { num_peaks as nat } else { 1 },
        forall|i: int| 0 <= i < out@.len() && i < values@.len() ==> out@[i] == values@[i],
        values@.len() > 0 ==> forall|i: int|
            values@.len() <= i < out@.len() ==> out@[i] == values@[values@.len() - 1],
        values@.len() == 0 ==> forall|i: int| 0 <= i < out@.len() ==> out@[i] == fallback,
{
    let count = if num_peaks >= 1 { num_peaks } else { 1 };
    let ghost want = fit_to_peaks(values@, num_peaks as nat, fallback);
    let mut out: Vec<T> = Vec::new();
    let mut i: usize = 0;
    while i < count
        invariant
            i <= count,
            count == if num_peaks >= 1 { num_peaks } else { 1 },
            want == fit_to_peaks(values@, num_peaks as nat, fallback),
            out@ == want.take(i as int),
        decreases count - i,
    {
        let v = if values.len() == 0 {
            fallback
        } else if i < values.len() {
            values[i]
        } else {
            values[values.len() - 1]
        };
        out.push(v);
        proof {
            assert(out@ =~= want.take(i + 1));
        }
        i = i + 1;
    }
    proof {
        assert(want.take(count as int) =~= want);
    }
    out
}

/// Fitting an already fitted list to the same peak count changes nothing,
/// whatever the fallback: normalising the betas again is a no-op.
pub proof fn lemma_fit_to_peaks_idempotent<T>(values: Seq<T>, num_peaks: nat, fallback: T, other: T)
    ensures
        fit_to_peaks(fit_to_peaks(values, num_peaks, fallback), num_peaks, other) == fit_to_peaks(
            values,
            num_peaks,
            fallback,
        ),
{
    let once = fit_to_peaks(values, num_peaks, fallback);
    assert(fit_to_peaks(once, num_peaks, other) =~= once);
}

/// A non-empty list fitted to at least as many peaks as it has entries keeps
/// every entry and is padded with copies of its last entry.
pub proof fn lemma_fit_to_peaks_pads_with_last<T>(values: Seq<T>, num_peaks: nat, fallback: T)
    requires
        1 <= values.len() <= num_peaks,
    ensures
        fit_to_peaks(values, num_peaks, fallback) == values + Seq::new(
            (num_peaks - values.len()) as nat,
            |i: int| values[values.len() - 1],
        ),
{
    assert(fit_to_peaks(values, num_peaks, fallback) =~= values + Seq::new(
        (num_peaks - values.len()) as nat,
        |i: int| values[values.len() - 1],
    ));
}

/// Fitting a list to `first` peaks and the result to `second` peaks is the
/// same as fitting the list to `second` peaks directly, when the first fit
/// lost nothing (it had room for every entry) or the second one keeps less.
pub proof fn lemma_fit_to_peaks_compose<T>(values: Seq<T>, first: nat, second: nat, fallback: T, other: T)
    requires
        second <= first || (values.len() <= first && first >= 1),
    ensures
        fit_to_peaks(fit_to_peaks(values, first, fallback), second, other) == fit_to_peaks(
            values,
            second,
            fallback,
        ),
{
    let once = fit_to_peaks(values, first, fallback);
    assert(fit_to_peaks(once, second, other) =~= fit_to_peaks(values, second, fallback));
}

/// Shifting an index by whole turns of the torus does not move its wrapped
/// position: the convolution sees the world as periodic.
pub proof fn lemma_wrap_periodic(index: int, turns: int, size: nat)
    requires
        0 < size <= isize::MAX,
    ensures
        wrapped(index + turns * size, size) == wrapped(index, size),
        wrapped(index, size) < size,
{
    vstd::arithmetic::div_mod::lemma_mod_multiples_vanish(turns, index, size as int);
    assert(index + turns * size == (size as int) * turns + index) by (nonlinear_arith);
}

/// `n` read as an `isize`, as the cast `n as isize` reads it (values above
/// `isize::MAX` read as negative numbers).
pub open spec fn signed_reading(n: nat) -> int {
    if n <= isize::MAX {
        n as int
    } else {
        n - (usize::MAX + 1)
    }
}

/// `n as isize`.
pub fn as_signed(n: usize) -> (v: isize)
    ensures
        v == signed_reading(n as nat),
{
    if n <= isize::MAX as usize {
        n as isize
    } else {
        -((usize::MAX - n) as isize) - 1
    }
}

/// Whether cell `(r, c)` lies in the grid and within `radius` (Euclidean
/// distance) of the brush centre.
pub open spec fn in_brush(rows: nat, cols: nat, center_col: int, center_row: int, radius: nat, r: int, c: int) -> bool {
    &&& 0 <= r < rows
    &&& 0 <= c < cols
    &&& (r - center_row) * (r - center_row) + (c - center_col) * (c - center_col) <= radius * radius
}

/// The brush is a disk. On the grid, the centre and every cell straight up,
/// down, left or right of it up to `radius` cells away are painted; the
/// corner `radius` cells away along both axes is not (for a radius of at
/// least one); and the painted cells stay painted when the offset from the
/// centre is reflected along either axis or its two axes are swapped.
pub proof fn lemma_brush_is_a_disk(
    rows: nat,
    cols: nat,
    center_col: int,
    center_row: int,
    radius: nat,
    dr: int,
    dc: int,
)
    ensures
        0 <= center_row + dr < rows && 0 <= center_col < cols && -(radius as int) <= dr <= radius
            ==> in_brush(rows, cols, center_col, center_row, radius, center_row + dr, center_col),
        0 <= center_row < rows && 0 <= center_col + dc < cols && -(radius as int) <= dc <= radius
            ==> in_brush(rows, cols, center_col, center_row, radius, center_row, center_col + dc),
        radius >= 1 ==> !in_brush(
            rows,
            cols,
            center_col,
            center_row,
            radius,
            center_row + radius,
            center_col + radius,
        ),
        in_brush(rows, cols, center_col, center_row, radius, center_row + dr, center_col + dc) && 0
            <= center_row - dr < rows ==> in_brush(
            rows,
            cols,
            center_col,
            center_row,
            radius,
            center_row - dr,
            center_col + dc,
        ),
        in_brush(rows, cols, center_col, center_row, radius, center_row + dr, center_col + dc) && 0
            <= center_col - dc < cols ==> in_brush(
            rows,
            cols,
            center_col,
            center_row,
            radius,
            center_row + dr,
            center_col - dc,
        ),
        in_brush(rows, cols, center_col, center_row, radius, center_row + dr, center_col + dc) && 0
            <= center_row + dc < rows && 0 <= center_col + dr < cols ==> in_brush(
            rows,
            cols,
            center_col,
            center_row,
            radius,
            center_row + dc,
            center_col + dr,
        ),
{
    assert((-dr) * (-dr) == dr * dr) by (nonlinear_arith);
    assert((-dc) * (-dc) == dc * dc) by (nonlinear_arith);
    if -(radius as int) <= dr <= radius {
        assert(dr * dr <= radius * radius) by (nonlinear_arith)
            requires
                -(radius as int) <= dr <= radius,
        ;
    }
    if -(radius as int) <= dc <= radius {
        assert(dc * dc <= radius * radius) by (nonlinear_arith)
            requires
                -(radius as int) <= dc <= radius,
        ;
    }
    if radius >= 1 {
        assert(radius * radius + radius * radius > radius * radius) by (nonlinear_arith)
            requires
                radius >= 1,
        ;
    }
    assert(center_row - dr - center_row == -dr);
    assert(center_col - dc - center_col == -dc);
    assert(center_row + dr - center_row == dr);
    assert(center_col + dc - center_col == dc);
}

/// Strict row-major order of cell coordinates.
pub open spec fn before(a: (usize, usize), b: (usize, usize)) -> bool {
    a.0 < b.0 || (a.0 == b.0 && a.1 < b.1)
}

proof fn lemma_disk_bounds(dr: int, dc: int, radius: nat)
    requires
        dr * dr + dc * dc <= radius * radius,
    ensures
        -(radius as int) <= dr <= radius,
        -(radius as int) <= dc <= radius,
{
    assert(dc * dc >= 0) by (nonlinear_arith);
    assert(dr * dr >= 0) by (nonlinear_arith);
    if dr > radius {
        assert(dr * dr > radius * radius) by (nonlinear_arith)
            requires
                dr > radius,
        ;
    }
    if dr < -(radius as int) {
        assert(dr * dr > radius * radius) by (nonlinear_arith)
            requires
                dr < -(radius as int),
        ;
    }
    if dc > radius {
        assert(dc * dc > radius * radius) by (nonlinear_arith)
            requires
                dc > radius,
        ;
    }
    if dc < -(radius as int) {
        assert(dc * dc > radius * radius) by (nonlinear_arith)
            requires
                dc < -(radius as int),
        ;
    }
}

/// The cells `(row, col)` that a circular brush of `radius` around
/// `(center_col, center_row)` touches in a `rows` by `cols` grid, in row-major
/// order: exactly the grid cells within distance `radius` of the centre.
/// The centre coordinates are read as `isize` values (a coordinate above
/// `isize::MAX` stands for a position left of or above the grid); `requires`
/// leaves out the radii and centres whose offset arithmetic overflows.
pub fn brush_cells(rows: usize, cols: usize, center_col: usize, center_row: usize, radius: usize) -> (cells: Vec<(usize, usize)>)
    requires
        2 * radius * radius <= isize::MAX,
        isize::MIN <= signed_reading(center_row as nat) - radius,
        signed_reading(center_row as nat) + radius <= isize::MAX,
        isize::MIN <= signed_reading(center_col as nat) - radius,
        signed_reading(center_col as nat) + radius <= isize::MAX,
    ensures
        forall|i: int| 0 <= i < cells@.len() ==> in_brush(rows as nat, cols as nat, signed_reading(center_col as nat), signed_reading(center_row as nat), radius as nat, (#[trigger] cells@[i]).0 as int, cells@[i].1 as int),
        forall|i: int, j: int| 0 <= i < j < cells@.len() ==> before(#[trigger] cells@[i], #[trigger] cells@[j]),
        forall|r: int, c: int| #![trigger in_brush(rows as nat, cols as nat, signed_reading(center_col as nat), signed_reading(center_row as nat), radius as nat, r, c)]
            in_brush(rows as nat, cols as nat, signed_reading(center_col as nat), signed_reading(center_row as nat), radius as nat, r, c)
            ==> cells@.contains((r as usize, c as usize)),
{
    let crs = as_signed(center_row);
    let ccs = as_signed(center_col);
    let ghost in_b = |r: int, c: int| in_brush(rows as nat, cols as nat, ccs as int, crs as int, radius as nat, r, c);
    proof {
        assert(radius * radius <= 2 * radius * radius) by (nonlinear_arith);
        assert(radius == 0 || radius < 2 * radius * radius) by (nonlinear_arith);
        assert forall|r: int, c: int| #![trigger in_b(r, c)] in_b(r, c) implies crs - radius <= r <= crs + radius
            && ccs - radius <= c <= ccs + radius by {
            lemma_disk_bounds(r - crs, c - ccs, radius as nat);
        }
    }
    let rad = radius as isize;
    let radius_sq = rad * rad;
    let mut cells: Vec<(usize, usize)> = Vec::new();
    let mut ro: isize = -rad;
    while ro <= rad
        invariant
            rad == radius,
            radius < isize::MAX,
            radius_sq == radius * radius,
            2 * radius * radius <= isize::MAX,
            isize::MIN <= crs - radius,
            crs + radius <= isize::MAX,
            isize::MIN <= ccs - radius,
            ccs + radius <= isize::MAX,
            -rad <= ro <= rad + 1,
            in_b == (|r: int, c: int| in_brush(rows as nat, cols as nat, ccs as int, crs as int, radius as nat, r, c)),
            forall|r: int, c: int| #![trigger in_b(r, c)] in_b(r, c) ==> crs - radius <= r <= crs + radius
                && ccs - radius <= c <= ccs + radius,
            forall|i: int| 0 <= i < cells@.len() ==> in_b((#[trigger] cells@[i]).0 as int, cells@[i].1 as int),
            forall|i: int| 0 <= i < cells@.len() ==> (#[trigger] cells@[i]).0 < crs + ro,
            forall|i: int, j: int| 0 <= i < j < cells@.len() ==> before(#[trigger] cells@[i], #[trigger] cells@[j]),
            forall|r: int, c: int| #![trigger in_b(r, c)] in_b(r, c) && r < crs + ro ==> cells@.contains((r as usize, c as usize)),
        decreases rad + 1 - ro,
    {
        let mut co: isize = -rad;
        let ghost row_start = cells@.len();
        while co <= rad
            invariant
                rad == radius,
                radius < isize::MAX,
                radius_sq == radius * radius,
                2 * radius * radius <= isize::MAX,
                isize::MIN <= crs - radius,
                crs + radius <= isize::MAX,
                isize::MIN <= ccs - radius,
                ccs + radius <= isize::MAX,
                -rad <= ro <= rad,
                -rad <= co <= rad + 1,
                row_start <= cells@.len(),
                in_b == (|r: int, c: int| in_brush(rows as nat, cols as nat, ccs as int, crs as int, radius as nat, r, c)),
                forall|r: int, c: int| #![trigger in_b(r, c)] in_b(r, c) ==> crs - radius <= r <= crs + radius
                    && ccs - radius <= c <= ccs + radius,
                forall|i: int| 0 <= i < cells@.len() ==> in_b((#[trigger] cells@[i]).0 as int, cells@[i].1 as int),
                forall|i: int| 0 <= i < row_start ==> (#[trigger] cells@[i]).0 < crs + ro,
                forall|i: int| row_start <= i < cells@.len() ==> (#[trigger] cells@[i]).0 == crs + ro && cells@[i].1 < ccs + co,
                forall|i: int, j: int| 0 <= i < j < cells@.len() ==> before(#[trigger] cells@[i], #[trigger] cells@[j]),
                forall|r: int, c: int| #![trigger in_b(r, c)] in_b(r, c) && (r < crs + ro || (r == crs + ro && c < ccs + co)) ==> cells@.contains((r as usize, c as usize)),
            decreases rad + 1 - co,
        {
            proof {
                assert(ro * ro <= radius * radius) by (nonlinear_arith)
                    requires
                        -(radius as int) <= ro <= radius,
                ;
                assert(co * co <= radius * radius) by (nonlinear_arith)
                    requires
                        -(radius as int) <= co <= radius,
                ;
                assert(2 * radius * radius == 2 * (radius * radius)) by (nonlinear_arith);
                assert(ro * ro + co * co <= isize::MAX);
                assert(0 <= ro * ro && 0 <= co * co) by (nonlinear_arith);
            }
            let dist_sq = ro * ro + co * co;
            let row = crs + ro;
            let col = ccs + co;
            if dist_sq <= radius_sq && row >= 0 && col >= 0 && (row as usize) < rows && (col as usize) < cols {
                let cell = (row as usize, col as usize);
                let ghost prev = cells@;
                cells.push(cell);
                proof {
                    assert(in_b(row as int, col as int));
                    assert forall|r: int, c: int| #![trigger in_b(r, c)] in_b(r, c) && (r < crs + ro || (r == crs + ro && c < ccs + co + 1))
                        implies cells@.contains((r as usize, c as usize)) by {
                        if r == crs + ro && c == ccs + co {
                            assert(cells@[prev.len() as int] == (r as usize, c as usize));
                        } else {
                            assert(prev.contains((r as usize, c as usize)));
                            let k = choose|k: int| 0 <= k < prev.len() && prev[k] == (r as usize, c as usize);
                            assert(cells@[k] == (r as usize, c as usize));
                        }
                    }
                }
            } else {
                proof {
                    assert(!in_b(row as int, col as int));
                }
            }
            co = co + 1;
        }
        proof {
            assert forall|r: int, c: int| #![trigger in_b(r, c)] in_b(r, c) && r < crs + ro + 1
                implies cells@.contains((r as usize, c as usize)) by {
                assert(c <= ccs + radius);
            }
        }
        ro = ro + 1;
    }
    proof {
        assert forall|r: int, c: int|
            #![trigger in_brush(rows as nat, cols as nat, ccs as int, crs as int, radius as nat, r, c)]
            in_brush(rows as nat, cols as nat, ccs as int, crs as int, radius as nat, r, c)
            implies cells@.contains((r as usize, c as usize)) by {
            assert(in_b(r, c));
        }
    }
    cells
}

/// The side of the square a food blob covers: at least one cell.
pub open spec fn blob_side(size: nat) -> nat {
    if size >= 1 {
        size
    } else {
        1
    }
}

/// One grid cell covered by a food blob, with its position inside the blob.
#[derive(Clone, Copy, Debug, PartialEq, Eq)]
pub struct BlobCell {
    pub row: usize,
    pub col: usize,
    pub local_row: usize,
    pub local_col: usize,
}

/// Whether the blob square of side `side` centred on `(center_col,
/// center_row)` (offset by `side / 2` cells up and left) puts its local cell
/// `(lr, lc)` on the grid.
pub open spec fn blob_hits_grid(rows: nat, cols: nat, center_col: int, center_row: int, side: nat, lr: int, lc: int) -> bool {
    &&& 0 <= lr < side
    &&& 0 <= lc < side
    &&& 0 <= center_row + lr - side / 2 < rows
    &&& 0 <= center_col + lc - side / 2 < cols
}

/// A food blob is a square of `side` by `side` cells whose middle cell sits
/// on the blob's centre: that cell hits the grid whenever the centre is on
/// it, and when the whole square lies on the grid every one of its cells
/// hits it.
pub proof fn lemma_blob_square_around_center(rows: nat, cols: nat, center_col: int, center_row: int, side: nat)
    requires
        side >= 1,
    ensures
        0 <= center_row < rows && 0 <= center_col < cols ==> blob_hits_grid(
            rows,
            cols,
            center_col,
            center_row,
            side,
            (side / 2) as int,
            (side / 2) as int,
        ),
        0 <= center_row - side / 2 && center_row - side / 2 + side <= rows && 0 <= center_col - side / 2
            && center_col - side / 2 + side <= cols ==> forall|lr: int, lc: int|
            0 <= lr < side && 0 <= lc < side ==> #[trigger] blob_hits_grid(
                rows,
                cols,
                center_col,
                center_row,
                side,
                lr,
                lc,
            ),
{
}

/// Strict row-major order of positions inside a blob.
pub open spec fn blob_before(a: BlobCell, b: BlobCell) -> bool {
    a.local_row < b.local_row || (a.local_row == b.local_row && a.local_col < b.local_col)
}

/// The side of a food blob of the requested size.
pub fn blob_extent(size: usize) -> (side: usize)
    ensures
        side == blob_side(size as nat),
{
    if size >= 1 {
        size
    } else {
        1
    }
}

/// The grid cells a square food blob of the given size covers around
/// `(center_col, center_row)`, in row-major order of the blob, each with its
/// local position (from which the blob's radial profile is computed). The
/// centre coordinates are read as `isize` values; `requires` leaves out the
/// sizes and centres whose offset arithmetic overflows.
pub fn blob_cells(rows: usize, cols: usize, center_col: usize, center_row: usize, size: usize) -> (cells: Vec<BlobCell>)
    requires
        blob_side(size as nat) <= isize::MAX,
        signed_reading(center_row as nat) + blob_side(size as nat) - 1 <= isize::MAX,
        isize::MIN <= signed_reading(center_row as nat) - blob_side(size as nat) / 2,
        signed_reading(center_col as nat) + blob_side(size as nat) - 1 <= isize::MAX,
        isize::MIN <= signed_reading(center_col as nat) - blob_side(size as nat) / 2,
    ensures
        forall|i: int| 0 <= i < cells@.len() ==> {
            let b = #[trigger] cells@[i];
            &&& blob_hits_grid(rows as nat, cols as nat, signed_reading(center_col as nat), signed_reading(center_row as nat), blob_side(size as nat), b.local_row as int, b.local_col as int)
            &&& b.row == signed_reading(center_row as nat) + b.local_row - blob_side(size as nat) / 2
            &&& b.col == signed_reading(center_col as nat) + b.local_col - blob_side(size as nat) / 2
        },
        forall|i: int, j: int| 0 <= i < j < cells@.len() ==> blob_before(#[trigger] cells@[i], #[trigger] cells@[j]),
        forall|lr: int, lc: int| #![trigger blob_hits_grid(rows as nat, cols as nat, signed_reading(center_col as nat), signed_reading(center_row as nat), blob_side(size as nat), lr, lc)]
            blob_hits_grid(rows as nat, cols as nat, signed_reading(center_col as nat), signed_reading(center_row as nat), blob_side(size as nat), lr, lc)
            ==> exists|i: int| 0 <= i < cells@.len() && (#[trigger] cells@[i]).local_row == lr && cells@[i].local_col == lc,
{
    let crs = as_signed(center_row);
    let ccs = as_signed(center_col);
    let side = blob_extent(size);
    let half = (side / 2) as isize;
    let ghost hits = |lr: int, lc: int| blob_hits_grid(rows as nat, cols as nat, ccs as int, crs as int, side as nat, lr, lc);
    let mut cells: Vec<BlobCell> = Vec::new();
    for lr in 0..side
        invariant
            side == blob_side(size as nat),
            half == side / 2,
            side <= isize::MAX,
            crs + side - 1 <= isize::MAX,
            isize::MIN <= crs - side / 2,
            ccs + side - 1 <= isize::MAX,
            isize::MIN <= ccs - side / 2,
            hits == (|a: int, b: int| blob_hits_grid(rows as nat, cols as nat, ccs as int, crs as int, side as nat, a, b)),
            forall|i: int| 0 <= i < cells@.len() ==> {
                let b = #[trigger] cells@[i];
                &&& hits(b.local_row as int, b.local_col as int)
                &&& b.row == crs + b.local_row - side / 2
                &&& b.col == ccs + b.local_col - side / 2
                &&& b.local_row < lr
            },
            forall|i: int, j: int| 0 <= i < j < cells@.len() ==> blob_before(#[trigger] cells@[i], #[trigger] cells@[j]),
            forall|a: int, b: int| #![trigger hits(a, b)] hits(a, b) && a < lr
                ==> exists|i: int| 0 <= i < cells@.len() && (#[trigger] cells@[i]).local_row == a && cells@[i].local_col == b,
    {
        let ghost row_start = cells@.len();
        for lc in 0..side
            invariant
                side == blob_side(size as nat),
                half == side / 2,
                lr < side,
                side <= isize::MAX,
                crs + side - 1 <= isize::MAX,
                isize::MIN <= crs - side / 2,
                ccs + side - 1 <= isize::MAX,
                isize::MIN <= ccs - side / 2,
                row_start <= cells@.len(),
                hits == (|a: int, b: int| blob_hits_grid(rows as nat, cols as nat, ccs as int, crs as int, side as nat, a, b)),
                forall|i: int| 0 <= i < cells@.len() ==> {
                    let b = #[trigger] cells@[i];
                    &&& hits(b.local_row as int, b.local_col as int)
                    &&& b.row == crs + b.local_row - side / 2
                    &&& b.col == ccs + b.local_col - side / 2
                    &&& b.local_row <= lr
                },
                forall|i: int| 0 <= i < row_start ==> (#[trigger] cells@[i]).local_row < lr,
                forall|i: int| row_start <= i < cells@.len() ==> (#[trigger] cells@[i]).local_row == lr && cells@[i].local_col < lc,
                forall|i: int, j: int| 0 <= i < j < cells@.len() ==> blob_before(#[trigger] cells@[i], #[trigger] cells@[j]),
                forall|a: int, b: int| #![trigger hits(a, b)] hits(a, b) && (a < lr || (a == lr && b < lc))
                    ==> exists|i: int| 0 <= i < cells@.len() && (#[trigger] cells@[i]).local_row == a && cells@[i].local_col == b,
        {
            let row = crs + lr as isize - half;
            let col = ccs + lc as isize - half;
            if row >= 0 && col >= 0 && (row as usize) < rows && (col as usize) < cols {
                let cell = BlobCell { row: row as usize, col: col as usize, local_row: lr, local_col: lc };
                let ghost prev = cells@;
                cells.push(cell);
                proof {
                    assert(hits(lr as int, lc as int));
                    assert forall|a: int, b: int| #![trigger hits(a, b)] hits(a, b) && (a < lr || (a == lr && b < lc + 1))
                        implies exists|i: int| 0 <= i < cells@.len() && (#[trigger] cells@[i]).local_row == a && cells@[i].local_col == b by {
                        if a == lr && b == lc {
                            assert(cells@[prev.len() as int].local_row == a);
                        } else {
                            let k = choose|k: int| 0 <= k < prev.len() && (#[trigger] prev[k]).local_row == a && prev[k].local_col == b;
                            assert(cells@[k] == prev[k]);
                        }
                    }
                }
            } else {
                proof {
                    assert(!hits(lr as int, lc as int));
                }
            }
        }
    }
    proof {
        assert forall|lr: int, lc: int|
            #![trigger blob_hits_grid(rows as nat, cols as nat, ccs as int, crs as int, blob_side(size as nat), lr, lc)]
            blob_hits_grid(rows as nat, cols as nat, ccs as int, crs as int, blob_side(size as nat), lr, lc)
            implies exists|i: int| 0 <= i < cells@.len() && (#[trigger] cells@[i]).local_row == lr && cells@[i].local_col == lc by {
            assert(hits(lr, lc));
        }
    }
    cells
}

} // verus!
