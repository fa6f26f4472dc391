//! Reversal of the five predictive scanline filters.
//!
//! A filtered byte is the difference, modulo 256, between the true byte and
//! a prediction made from bytes that the decoder has already reconstructed:
//! the byte `bpp` positions to the left (`a`), the byte above (`b`) and the
//! byte above and to the left (`c`). Reversing a filter adds the prediction
//! back, from left to right within a row and from the top row down.

use crate::error::{DecodeError, Failure};
use crate::header::bpp_of;
use crate::png::{uniform, DecodeState, InProcessPng};
use vstd::prelude::*;
use vstd::slice::slice_to_vec;

verus! {

/// The filter that a scanline was encoded with, named by its leading tag byte.
#[derive(Debug, Clone, Copy, PartialEq, Eq, Structural)]
pub enum ScanLineFilterType {
    Unfiltered,
    Sub,
    Up,
    Average,
    Paeth,
}

/// The filter that a tag byte names, if it names one.
pub open spec fn filter_type_of(tag: u8) -> Option<ScanLineFilterType> {
    if tag == 0 {
        Some(ScanLineFilterType::Unfiltered)
    } else if tag == 1 {
        Some(ScanLineFilterType::Sub)
    } else if tag == 2 {
        Some(ScanLineFilterType::Up)
    } else if tag == 3 {
        Some(ScanLineFilterType::Average)
    } else if tag == 4 {
        Some(ScanLineFilterType::Paeth)
    } else {
        None
    }
}

impl ScanLineFilterType {
    /// Reads a filter tag; `None` for a byte outside `0..=4`.
    pub fn from_u8(tag: u8) -> (kind: Option<Self>)
        ensures
            kind == filter_type_of(tag),
    {
        match tag {
            0 => Some(ScanLineFilterType::Unfiltered),
            1 => Some(ScanLineFilterType::Sub),
            2 => Some(ScanLineFilterType::Up),
            3 => Some(ScanLineFilterType::Average),
            4 => Some(ScanLineFilterType::Paeth),
            _ => None,
        }
    }
}

/// Distance between two integers.
pub open spec fn distance(x: int, y: int) -> int {
    if x >= y {
        x - y
    } else {
        y - x
    }
}

/// The Paeth predictor: whichever of `a`, `b`, `c` lies nearest to
/// `a + b - c`, ties going to `a` first and to `b` second.
pub open spec fn paeth(a: int, b: int, c: int) -> int {
    let p = a + b - c;
    let pa = distance(p, a);
    let pb = distance(p, b);
    let pc = distance(p, c);
    if pa <= pb && pa <= pc {
        a
    } else if pb <= pc {
        b
    } else {
        c
    }
}

/// What a filter predicts for a byte with neighbours `a` (left), `b` (above)
/// and `c` (above left).
pub open spec fn predictor(kind: ScanLineFilterType, a: int, b: int, c: int) -> int {
    match kind {
        ScanLineFilterType::Unfiltered => 0,
        ScanLineFilterType::Sub => a,
        ScanLineFilterType::Up => b,
        ScanLineFilterType::Average => (a + b) / 2,
        ScanLineFilterType::Paeth => paeth(a, b, c),
    }
}

/// The byte `bpp` positions to the left of position `x` in `row`, or 0 where
/// the row does not reach that far left.
pub open spec fn left_of(row: Seq<u8>, x: int, bpp: nat) -> int {
    if x >= bpp {
        row[x - bpp] as int
    } else {
        0
    }
}

/// What the filter predicts for position `x` of a row, from the row above
/// and from what is known of the row itself, which must reach up to `x`.
pub open spec fn prediction(
    kind: ScanLineFilterType,
    bpp: nat,
    prior: Seq<u8>,
    row: Seq<u8>,
    x: int,
) -> int {
    predictor(kind, left_of(row, x, bpp), prior[x] as int, left_of(prior, x, bpp))
}

/// The reconstructed byte at position `x`, given the filtered row, the
/// reconstructed row above, and a reconstruction `done` of this row that
/// reaches at least up to `x`.
pub open spec fn reconstruct_byte(
    kind: ScanLineFilterType,
    bpp: nat,
    filt: Seq<u8>,
    prior: Seq<u8>,
    done: Seq<u8>,
    x: int,
) -> u8 {
    ((filt[x] + prediction(kind, bpp, prior, done, x)) % 256) as u8
}

/// The first `n` reconstructed bytes of a row.
pub open spec fn reconstruct_prefix(
    kind: ScanLineFilterType,
    bpp: nat,
    filt: Seq<u8>,
    prior: Seq<u8>,
    n: nat,
) -> Seq<u8>
    decreases n,
{
    if n == 0 {
        Seq::empty()
    } else {
        let done = reconstruct_prefix(kind, bpp, filt, prior, (n - 1) as nat);
        done.push(reconstruct_byte(kind, bpp, filt, prior, done, n - 1))
    }
}

/// The reconstruction of the filtered row `filt` that lies below the
/// reconstructed row `prior`.
pub open spec fn reconstruct_row(
    kind: ScanLineFilterType,
    bpp: nat,
    filt: Seq<u8>,
    prior: Seq<u8>,
) -> Seq<u8> {
    reconstruct_prefix(kind, bpp, filt, prior, filt.len())
}

/// The row of zeros that stands in for the row above the first.
pub open spec fn zero_row(len: nat) -> Seq<u8> {
    Seq::new(len, |i: int| 0u8)
}

/// The row above row `index`.
pub open spec fn prior_row(rows: Seq<Seq<u8>>, index: int) -> Seq<u8> {
    if index == 0 {
        zero_row(rows[0].len())
    } else {
        rows[index - 1]
    }
}

/// A vector of rows as a sequence of byte sequences.
pub open spec fn rows_of(data: Seq<Vec<u8>>) -> Seq<Seq<u8>> {
    data.map_values(|row: Vec<u8>| row@)
}

/// The first `n` rows of an image, reconstructed from scanlines that each
/// begin with a valid filter tag. A row is reconstructed below the
/// reconstruction of the row before it, the first row below a row of zeros.
pub open spec fn reconstruct_rows(bpp: nat, scanlines: Seq<Seq<u8>>, n: nat) -> Seq<Seq<u8>>
    decreases n,
{
    if n == 0 {
        Seq::empty()
    } else {
        let done = reconstruct_rows(bpp, scanlines, (n - 1) as nat);
        let line = scanlines[n - 1];
        let prior = if n == 1 {
            zero_row((line.len() - 1) as nat)
        } else {
            done[n - 2]
        };
        done.push(reconstruct_row(filter_type_of(line[0])->Some_0, bpp, line.skip(1), prior))
    }
}

/// Whether every scanline begins with a filter tag that names a filter.
pub open spec fn tags_valid(scanlines: Seq<Seq<u8>>) -> bool {
    forall|i: int| 0 <= i < scanlines.len() ==> filter_type_of((#[trigger] scanlines[i])[0]) is Some
}

/// The rows of an image, reconstructed from its scanlines, if each of them
/// names its filter.
pub open spec fn unfilter(bpp: nat, scanlines: Seq<Seq<u8>>) -> Result<Seq<Seq<u8>>, Failure> {
    if tags_valid(scanlines) {
        Ok(reconstruct_rows(bpp, scanlines, scanlines.len()))
    } else {
        Err(Failure::InvalidFilterType)
    }
}

/// The reconstructed rows of a decode state: there must be a header that
/// fixes the bytes per pixel, and every scanline must name its filter.
pub open spec fn reconstruct(state: DecodeState) -> Result<Seq<Seq<u8>>, Failure> {
    match bpp_of(state.header) {
        Err(e) => Err(e),
        Ok(bpp) => unfilter(bpp, state.scanlines),
    }
}

/// That `recon` solves the filter equations for `filt` below `prior`: every
/// byte is the filtered byte plus the prediction from its neighbours in
/// `recon` and `prior`, modulo 256.
pub open spec fn solves_filter(
    kind: ScanLineFilterType,
    bpp: nat,
    filt: Seq<u8>,
    prior: Seq<u8>,
    recon: Seq<u8>,
) -> bool {
    &&& recon.len() == filt.len()
    &&& forall|x: int|
        0 <= x < filt.len() ==> #[trigger] recon[x] == reconstruct_byte(
            kind,
            bpp,
            filt,
            prior,
            recon,
            x,
        )
}

proof fn lemma_prefix_len(
    kind: ScanLineFilterType,
    bpp: nat,
    filt: Seq<u8>,
    prior: Seq<u8>,
    n: nat,
)
    ensures
        reconstruct_prefix(kind, bpp, filt, prior, n).len() == n,
    decreases n,
{
    if n > 0 {
        lemma_prefix_len(kind, bpp, filt, prior, (n - 1) as nat);
    }
}

/// A longer prefix extends a shorter one.
proof fn lemma_prefix_stable(
    kind: ScanLineFilterType,
    bpp: nat,
    filt: Seq<u8>,
    prior: Seq<u8>,
    n: nat,
    m: nat,
)
    requires
        n <= m,
    ensures
        reconstruct_prefix(kind, bpp, filt, prior, m).take(n as int) == reconstruct_prefix(
            kind,
            bpp,
            filt,
            prior,
            n,
        ),
    decreases m,
{
    lemma_prefix_len(kind, bpp, filt, prior, m);
    let long = reconstruct_prefix(kind, bpp, filt, prior, m);
    if n == m {
        assert(long.take(n as int) =~= long);
    } else {
        let shorter = reconstruct_prefix(kind, bpp, filt, prior, (m - 1) as nat);
        lemma_prefix_len(kind, bpp, filt, prior, (m - 1) as nat);
        lemma_prefix_stable(kind, bpp, filt, prior, n, (m - 1) as nat);
        assert(long.take(n as int) =~= shorter.take(n as int));
    }
}

/// Where every prediction is zero the row is its own reconstruction.
proof fn lemma_prefix_identity(
    kind: ScanLineFilterType,
    bpp: nat,
    filt: Seq<u8>,
    prior: Seq<u8>,
    n: nat,
)
    requires
        bpp >= 1,
        n <= filt.len(),
        forall|x: int| 0 <= x < n ==> #[trigger] prediction(kind, bpp, prior, filt, x) == 0,
    ensures
        reconstruct_prefix(kind, bpp, filt, prior, n) == filt.take(n as int),
    decreases n,
{
    if n == 0 {
        assert(filt.take(0) =~= Seq::<u8>::empty());
    } else {
        let x = n - 1;
        lemma_prefix_identity(kind, bpp, filt, prior, x as nat);
        let done = filt.take(x);
        assert(prediction(kind, bpp, prior, done, x) == prediction(kind, bpp, prior, filt, x));
        assert(reconstruct_byte(kind, bpp, filt, prior, done, x) == filt[x]);
        assert(done.push(filt[x]) =~= filt.take(n as int));
    }
}

/// The reconstruction solves the filter equations.
pub proof fn law_reconstruction_solves_filter(
    kind: ScanLineFilterType,
    bpp: nat,
    filt: Seq<u8>,
    prior: Seq<u8>,
)
    requires
        bpp >= 1,
    ensures
        solves_filter(kind, bpp, filt, prior, reconstruct_row(kind, bpp, filt, prior)),
{
    let recon = reconstruct_row(kind, bpp, filt, prior);
    lemma_prefix_len(kind, bpp, filt, prior, filt.len());
    assert forall|x: int| 0 <= x < filt.len() implies #[trigger] recon[x] == reconstruct_byte(
        kind,
        bpp,
        filt,
        prior,
        recon,
        x,
    ) by {
        let done = reconstruct_prefix(kind, bpp, filt, prior, x as nat);
        let upto = reconstruct_prefix(kind, bpp, filt, prior, (x + 1) as nat);
        lemma_prefix_len(kind, bpp, filt, prior, x as nat);
        lemma_prefix_stable(kind, bpp, filt, prior, x as nat, filt.len());
        lemma_prefix_stable(kind, bpp, filt, prior, (x + 1) as nat, filt.len());
        assert(recon[x] == recon.take(x + 1)[x]);
        assert(upto[x] == reconstruct_byte(kind, bpp, filt, prior, done, x));
        if x >= bpp {
            assert(done[x - bpp] == recon.take(x)[x - bpp]);
        }
    }
}

/// What the encoder makes of a row: from every byte it takes away, modulo
/// 256, what the filter predicts for it from the bytes of the row itself
/// and of the row above.
pub open spec fn filter_row(kind: ScanLineFilterType, bpp: nat, raw: Seq<u8>, prior: Seq<u8>) -> Seq<
    u8,
> {
    Seq::new(raw.len(), |x: int| ((raw[x] - prediction(kind, bpp, prior, raw, x)) % 256) as u8)
}

/// The filter equations have one solution only.
pub proof fn law_reconstruction_unique(
    kind: ScanLineFilterType,
    bpp: nat,
    filt: Seq<u8>,
    prior: Seq<u8>,
    recon: Seq<u8>,
)
    requires
        bpp >= 1,
        solves_filter(kind, bpp, filt, prior, recon),
    ensures
        recon == reconstruct_row(kind, bpp, filt, prior),
{
    lemma_solution_prefix(kind, bpp, filt, prior, recon, filt.len());
    assert(recon.take(filt.len() as int) =~= recon);
}

/// Reconstruction undoes filtering: a row that the encoder has filtered
/// comes back as it was.
pub proof fn law_reconstruction_inverts_filter(
    kind: ScanLineFilterType,
    bpp: nat,
    raw: Seq<u8>,
    prior: Seq<u8>,
)
    requires
        bpp >= 1,
    ensures
        reconstruct_row(kind, bpp, filter_row(kind, bpp, raw, prior), prior) == raw,
{
    let filt = filter_row(kind, bpp, raw, prior);
    assert forall|x: int| 0 <= x < filt.len() implies #[trigger] raw[x] == reconstruct_byte(
        kind,
        bpp,
        filt,
        prior,
        raw,
        x,
    ) by {
        let predicted = prediction(kind, bpp, prior, raw, x);
        let byte = raw[x] as int;
        assert(((byte - predicted) % 256 + predicted) % 256 == byte);
    }
    law_reconstruction_unique(kind, bpp, filt, prior, raw);
}

proof fn lemma_solution_prefix(
    kind: ScanLineFilterType,
    bpp: nat,
    filt: Seq<u8>,
    prior: Seq<u8>,
    recon: Seq<u8>,
    n: nat,
)
    requires
        bpp >= 1,
        n <= filt.len(),
        solves_filter(kind, bpp, filt, prior, recon),
    ensures
        recon.take(n as int) == reconstruct_prefix(kind, bpp, filt, prior, n),
    decreases n,
{
    if n == 0 {
        assert(recon.take(0) =~= Seq::<u8>::empty());
    } else {
        let x = n - 1;
        lemma_solution_prefix(kind, bpp, filt, prior, recon, x as nat);
        let done = recon.take(x);
        if x >= bpp {
            assert(done[x - bpp] == recon[x - bpp]);
        }
        assert(recon[x] == reconstruct_byte(kind, bpp, filt, prior, done, x));
        assert(recon.take(n as int) =~= done.push(recon[x]));
    }
}

/// Reconstruction in place goes byte by byte: a row whose first `x` bytes are
/// reconstructed, and which then gets its reconstructed byte at `x`, is
/// reconstructed in its first `x + 1` bytes.
proof fn lemma_extend_prefix(
    kind: ScanLineFilterType,
    bpp: nat,
    filt: Seq<u8>,
    prior: Seq<u8>,
    row: Seq<u8>,
    x: int,
    value: u8,
)
    requires
        bpp >= 1,
        0 <= x < filt.len(),
        row.len() == filt.len(),
        row.take(x) == reconstruct_prefix(kind, bpp, filt, prior, x as nat),
        value == reconstruct_byte(kind, bpp, filt, prior, row, x),
    ensures
        row.update(x, value).take(x + 1) == reconstruct_prefix(
            kind,
            bpp,
            filt,
            prior,
            (x + 1) as nat,
        ),
{
    let done = row.take(x);
    if x >= bpp {
        assert(done[x - bpp] == row[x - bpp]);
    }
    assert(reconstruct_byte(kind, bpp, filt, prior, done, x) == value);
    assert(row.update(x, value).take(x + 1) =~= done.push(value));
}

/// The Paeth predictor for three byte values.
pub fn paeth_predictor(a: i64, b: i64, c: i64) -> (nearest: usize)
    requires
        0 <= a <= 255,
        0 <= b <= 255,
        0 <= c <= 255,
    ensures
        nearest == paeth(a as int, b as int, c as int),
{
    let p: i64 = a + b - c;
    let pa: i64 = if p >= a { p - a } else { a - p };
    let pb: i64 = if p >= b { p - b } else { b - p };
    let pc: i64 = if p >= c { p - c } else { c - p };

    if pa <= pb && pa <= pc {
        a as usize
    } else if pb <= pc {
        b as usize
    } else {
        c as usize
    }
}

/// That the rows `after` are the rows `before` with row `index` replaced by
/// `row`.
pub open spec fn row_replaced(
    before: Seq<Vec<u8>>,
    after: Seq<Vec<u8>>,
    index: int,
    row: Seq<u8>,
) -> bool {
    rows_of(after) == rows_of(before).update(index, row)
}

/// Reverses the Sub filter on row `scanline_index`, in place.
pub fn filter_sub(data: &mut Vec<Vec<u8>>, scanline_index: usize, bpp: usize)
    requires
        scanline_index < old(data).len(),
        bpp >= 1,
    ensures
        row_replaced(
            old(data)@,
            final(data)@,
            scanline_index as int,
            reconstruct_row(
                ScanLineFilterType::Sub,
                bpp as nat,
                old(data)[scanline_index as int]@,
                prior_row(rows_of(old(data)@), scanline_index as int),
            ),
        ),
{
    let ghost before = data@;
    let ghost filt = data[scanline_index as int]@;
    let ghost prior = prior_row(rows_of(data@), scanline_index as int);
    let ghost kind = ScanLineFilterType::Sub;
    let scanline = &mut data[scanline_index];
    let n: usize = scanline.len();
    let mut b_idx: usize = if bpp < n { bpp } else { n };
    proof {
        assert forall|x: int| 0 <= x < b_idx implies #[trigger] prediction(
            kind,
            bpp as nat,
            prior,
            filt,
            x,
        ) == 0 by {}
        lemma_prefix_identity(kind, bpp as nat, filt, prior, b_idx as nat);
    }
    while b_idx < n
        invariant
            kind == ScanLineFilterType::Sub,
            bpp >= 1,
            bpp <= b_idx || b_idx == n,
            b_idx <= n,
            n == filt.len(),
            scanline@.len() == n,
            scanline@.take(b_idx as int) == reconstruct_prefix(
                kind,
                bpp as nat,
                filt,
                prior,
                b_idx as nat,
            ),
            forall|k: int| b_idx <= k < n ==> scanline@[k] == filt[k],
        decreases n - b_idx,
    {
        let ghost row = scanline@;
        let value: u8 = ((scanline[b_idx] as usize + scanline[b_idx - bpp] as usize) % 256) as u8;
        scanline[b_idx] = value;
        proof {
            lemma_extend_prefix(kind, bpp as nat, filt, prior, row, b_idx as int, value);
        }
        b_idx += 1;
    }
    proof {
        assert(scanline@.take(n as int) =~= scanline@);
        assert(rows_of(data@) =~= rows_of(before).update(scanline_index as int, scanline@));
    }
}

/// For the Up filter the stride plays no part.
proof fn lemma_up_ignores_stride(bpp: nat, filt: Seq<u8>, prior: Seq<u8>, n: nat)
    ensures
        reconstruct_prefix(ScanLineFilterType::Up, bpp, filt, prior, n) == reconstruct_prefix(
            ScanLineFilterType::Up,
            1,
            filt,
            prior,
            n,
        ),
    decreases n,
{
    if n > 0 {
        lemma_up_ignores_stride(bpp, filt, prior, (n - 1) as nat);
    }
}

/// Reverses the Up filter on row `scanline_index`, in place. The first row,
/// which has only zeros above it, stays as it is.
pub fn filter_up(data: &mut Vec<Vec<u8>>, scanline_index: usize)
    requires
        scanline_index < old(data).len(),
        scanline_index > 0 ==> old(data)[scanline_index - 1].len() == old(
            data,
        )[scanline_index as int].len(),
    ensures
        forall|bpp: nat|
            bpp >= 1 ==> row_replaced(
                old(data)@,
                final(data)@,
                scanline_index as int,
                #[trigger] reconstruct_row(
                    ScanLineFilterType::Up,
                    bpp,
                    old(data)[scanline_index as int]@,
                    prior_row(rows_of(old(data)@), scanline_index as int),
                ),
            ),
{
    let ghost before = data@;
    let ghost filt = data[scanline_index as int]@;
    let ghost above = prior_row(rows_of(data@), scanline_index as int);
    let ghost kind = ScanLineFilterType::Up;
    proof {
        assert forall|bpp: nat| bpp >= 1 implies #[trigger] reconstruct_row(kind, bpp, filt, above)
            == reconstruct_row(kind, 1, filt, above) by {
            lemma_up_ignores_stride(bpp, filt, above, filt.len());
        }
    }
    if scanline_index == 0 {
        proof {
            assert forall|x: int| 0 <= x < filt.len() implies #[trigger] prediction(
                kind,
                1,
                above,
                filt,
                x,
            ) == 0 by {}
            lemma_prefix_identity(kind, 1, filt, above, filt.len());
            assert(filt.take(filt.len() as int) =~= filt);
            assert(rows_of(before) =~= rows_of(before).update(0, filt));
        }
        return ;
    }
    let prior: Vec<u8> = data[scanline_index - 1].clone();
    assert(prior@ =~= above);
    let scanline = &mut data[scanline_index];
    let n: usize = scanline.len();
    let mut b_idx: usize = 0;
    while b_idx < n
        invariant
            kind == ScanLineFilterType::Up,
            b_idx <= n,
            n == filt.len(),
            prior@ == above,
            prior@.len() == n,
            scanline@.len() == n,
            scanline@.take(b_idx as int) == reconstruct_prefix(kind, 1, filt, above, b_idx as nat),
            forall|k: int| b_idx <= k < n ==> scanline@[k] == filt[k],
        decreases n - b_idx,
    {
        let ghost row = scanline@;
        let value: u8 = ((scanline[b_idx] as usize + prior[b_idx] as usize) % 256) as u8;
        scanline[b_idx] = value;
        proof {
            lemma_extend_prefix(kind, 1, filt, above, row, b_idx as int, value);
        }
        b_idx += 1;
    }
    proof {
        assert(scanline@.take(n as int) =~= scanline@);
        assert(rows_of(data@) =~= rows_of(before).update(scanline_index as int, scanline@));
    }
}

/// Reverses the Average filter on row `scanline_index`, in place.
pub fn filter_average(data: &mut Vec<Vec<u8>>, scanline_index: usize, bpp: usize)
    requires
        scanline_index < old(data).len(),
        scanline_index > 0 ==> old(data)[scanline_index - 1].len() == old(
            data,
        )[scanline_index as int].len(),
        bpp >= 1,
    ensures
        row_replaced(
            old(data)@,
            final(data)@,
            scanline_index as int,
            reconstruct_row(
                ScanLineFilterType::Average,
                bpp as nat,
                old(data)[scanline_index as int]@,
                prior_row(rows_of(old(data)@), scanline_index as int),
            ),
        ),
{
    let ghost before = data@;
    let ghost filt = data[scanline_index as int]@;
    let ghost above = prior_row(rows_of(data@), scanline_index as int);
    let ghost kind = ScanLineFilterType::Average;
    let scanline_size: usize = data[scanline_index].len();
    let prior: Vec<u8> = if scanline_index > 0 {
        data[scanline_index - 1].clone()
    } else {
        vec![0; scanline_size]
    };
    assert(prior@ =~= above);
    let scanline = &mut data[scanline_index];
    let mut b_idx: usize = 0;
    while b_idx < scanline_size
        invariant
            kind == ScanLineFilterType::Average,
            bpp >= 1,
            b_idx <= scanline_size,
            scanline_size == filt.len(),
            prior@ == above,
            prior@.len() == scanline_size,
            scanline@.len() == scanline_size,
            scanline@.take(b_idx as int) == reconstruct_prefix(
                kind,
                bpp as nat,
                filt,
                above,
                b_idx as nat,
            ),
            forall|k: int| b_idx <= k < scanline_size ==> scanline@[k] == filt[k],
        decreases scanline_size - b_idx,
    {
        let ghost row = scanline@;
        let before_byte: usize = if b_idx < bpp {
            0
        } else {
            scanline[b_idx - bpp] as usize
        };
        let average: usize = (before_byte + prior[b_idx] as usize) / 2;
        let value: u8 = ((scanline[b_idx] as usize + average) % 256) as u8;
        scanline[b_idx] = value;
        proof {
            lemma_extend_prefix(kind, bpp as nat, filt, above, row, b_idx as int, value);
        }
        b_idx += 1;
    }
    proof {
        assert(scanline@.take(scanline_size as int) =~= scanline@);
        assert(rows_of(data@) =~= rows_of(before).update(scanline_index as int, scanline@));
    }
}

/// Reverses the Paeth filter on row `scanline_index`, in place.
pub fn filter_paeth(data: &mut Vec<Vec<u8>>, scanline_index: usize, bpp: usize)
    requires
        scanline_index < old(data).len(),
        scanline_index > 0 ==> old(data)[scanline_index - 1].len() == old(
            data,
        )[scanline_index as int].len(),
        bpp >= 1,
    ensures
        row_replaced(
            old(data)@,
            final(data)@,
            scanline_index as int,
            reconstruct_row(
                ScanLineFilterType::Paeth,
                bpp as nat,
                old(data)[scanline_index as int]@,
                prior_row(rows_of(old(data)@), scanline_index as int),
            ),
        ),
{
    let ghost before = data@;
    let ghost filt = data[scanline_index as int]@;
    let ghost above = prior_row(rows_of(data@), scanline_index as int);
    let ghost kind = ScanLineFilterType::Paeth;
    let scanline_size: usize = data[scanline_index].len();
    let prior: Vec<u8> = if scanline_index > 0 {
        data[scanline_index - 1].clone()
    } else {
        vec![0; scanline_size]
    };
    assert(prior@ =~= above);
    let scanline = &mut data[scanline_index];
    let mut b_idx: usize = 0;
    while b_idx < scanline_size
        invariant
            kind == ScanLineFilterType::Paeth,
            bpp >= 1,
            b_idx <= scanline_size,
            scanline_size == filt.len(),
            prior@ == above,
            prior@.len() == scanline_size,
            scanline@.len() == scanline_size,
            scanline@.take(b_idx as int) == reconstruct_prefix(
                kind,
                bpp as nat,
                filt,
                above,
                b_idx as nat,
            ),
            forall|k: int| b_idx <= k < scanline_size ==> scanline@[k] == filt[k],
        decreases scanline_size - b_idx,
    {
        let ghost row = scanline@;
        let before_byte: i64 = if b_idx < bpp {
            0
        } else {
            scanline[b_idx - bpp] as i64
        };
        let before_prior: i64 = if b_idx < bpp {
            0
        } else {
            prior[b_idx - bpp] as i64
        };
        let predicted: usize = paeth_predictor(before_byte, prior[b_idx] as i64, before_prior);
        let value: u8 = ((scanline[b_idx] as usize + predicted) % 256) as u8;
        scanline[b_idx] = value;
        proof {
            lemma_extend_prefix(kind, bpp as nat, filt, above, row, b_idx as int, value);
        }
        b_idx += 1;
    }
    proof {
        assert(scanline@.take(scanline_size as int) =~= scanline@);
        assert(rows_of(data@) =~= rows_of(before).update(scanline_index as int, scanline@));
    }
}

proof fn lemma_rows_len(bpp: nat, scanlines: Seq<Seq<u8>>, n: nat)
    ensures
        reconstruct_rows(bpp, scanlines, n).len() == n,
    decreases n,
{
    if n > 0 {
        lemma_rows_len(bpp, scanlines, (n - 1) as nat);
    }
}

/// A reconstructed row is as long as the filtered row.
pub proof fn law_reconstruct_row_len(
    kind: ScanLineFilterType,
    bpp: nat,
    filt: Seq<u8>,
    prior: Seq<u8>,
)
    ensures
        reconstruct_row(kind, bpp, filt, prior).len() == filt.len(),
{
    lemma_prefix_len(kind, bpp, filt, prior, filt.len());
}

/// Reconstruction gives one row for each scanline, each a byte shorter than
/// its scanline, which loses its tag.
pub proof fn law_reconstruct_rows_shape(bpp: nat, scanlines: Seq<Seq<u8>>, n: nat)
    requires
        n <= scanlines.len(),
        forall|i: int| 0 <= i < scanlines.len() ==> (#[trigger] scanlines[i]).len() >= 1,
    ensures
        reconstruct_rows(bpp, scanlines, n).len() == n,
        forall|i: int|
            0 <= i < n ==> (#[trigger] reconstruct_rows(bpp, scanlines, n)[i]).len()
                == scanlines[i].len() - 1,
    decreases n,
{
    lemma_rows_len(bpp, scanlines, n);
    if n > 0 {
        let done = reconstruct_rows(bpp, scanlines, (n - 1) as nat);
        law_reconstruct_rows_shape(bpp, scanlines, (n - 1) as nat);
        let line = scanlines[n - 1];
        let prior = if n == 1 {
            zero_row((line.len() - 1) as nat)
        } else {
            done[n - 2]
        };
        law_reconstruct_row_len(filter_type_of(line[0])->Some_0, bpp, line.skip(1), prior);
    }
}

/// Reverses the filters of all scanlines, from the top row down, and hands
/// out the rows without their tags.
pub fn revert_filters(png: &InProcessPng) -> (result: Result<Vec<Vec<u8>>, DecodeError>)
    ensures
        match result {
            Ok(rows) => reconstruct(png@) == Ok::<Seq<Seq<u8>>, Failure>(rows_of(rows@)),
            Err(e) => reconstruct(png@) == Err::<Seq<Seq<u8>>, Failure>(e@),
        },
{
    let bpp: usize = match png.get_bpp() {
        Ok(bpp) => bpp,
        Err(e) => {
            return Err(e);
        },
    };
    let scanlines_with_filter = png.get_scanlines();
    let ghost tagged = png@.scanlines;
    let count: usize = scanlines_with_filter.len();
    let mut result: Vec<Vec<u8>> = Vec::new();
    let mut line: usize = 0;
    while line < count
        invariant
            line <= count,
            count == scanlines_with_filter.len(),
            rows_of(scanlines_with_filter@) == tagged,
            uniform(tagged),
            result.len() == line,
            forall|j: int| 0 <= j < line ==> (#[trigger] result[j])@ == tagged[j].skip(1),
        decreases count - line,
    {
        let tagged_row = &scanlines_with_filter[line];
        assert(tagged_row@ == tagged[line as int]);
        result.push(slice_to_vec(&tagged_row[1..tagged_row.len()]));
        proof {
            assert(tagged_row@.subrange(1, tagged_row@.len() as int) =~= tagged_row@.skip(1));
        }
        line += 1;
    }

    let mut scanline: usize = 0;
    while scanline < count
        invariant
            bpp_of(png@.header) == Ok::<nat, Failure>(bpp as nat),
            tagged == png@.scanlines,
            bpp >= 1,
            scanline <= count,
            count == scanlines_with_filter.len(),
            count == tagged.len(),
            rows_of(scanlines_with_filter@) == tagged,
            uniform(tagged),
            result.len() == count,
            rows_of(result@).take(scanline as int) == reconstruct_rows(
                bpp as nat,
                tagged,
                scanline as nat,
            ),
            forall|j: int| scanline <= j < count ==> (#[trigger] result[j])@ == tagged[j].skip(1),
            forall|j: int| 0 <= j < count ==> (#[trigger] result[j]).len() == tagged[0].len() - 1,
            forall|j: int| 0 <= j < scanline ==> filter_type_of((#[trigger] tagged[j])[0]) is Some,
        decreases count - scanline,
    {
        let ghost rows_before = rows_of(result@);
        let ghost done = reconstruct_rows(bpp as nat, tagged, scanline as nat);
        let ghost filt = tagged[scanline as int].skip(1);
        let ghost above = prior_row(rows_before, scanline as int);
        assert(scanlines_with_filter[scanline as int]@ == tagged[scanline as int]);
        let tag: u8 = scanlines_with_filter[scanline][0];
        let filter_type = match ScanLineFilterType::from_u8(tag) {
            Some(filter_type) => filter_type,
            None => {
                return Err(DecodeError::InvalidFilterType);
            },
        };
        proof {
            assert(rows_before[scanline as int] == filt);
            assert(result[scanline as int].len() == filt.len());
            if scanline > 0 {
                assert(rows_before[scanline - 1] == rows_before.take(scanline as int)[scanline - 1]);
                assert(result[scanline - 1].len() == result[scanline as int].len());
            } else {
                assert(rows_before[0].len() == filt.len());
            }
        }
        match filter_type {
            ScanLineFilterType::Unfiltered => {
                proof {
                    assert forall|x: int| 0 <= x < filt.len() implies #[trigger] prediction(
                        filter_type,
                        bpp as nat,
                        above,
                        filt,
                        x,
                    ) == 0 by {}
                    lemma_prefix_identity(filter_type, bpp as nat, filt, above, filt.len());
                    assert(filt.take(filt.len() as int) =~= filt);
                    assert(rows_before =~= rows_before.update(scanline as int, filt));
                }
            },
            ScanLineFilterType::Sub => filter_sub(&mut result, scanline, bpp),
            ScanLineFilterType::Up => filter_up(&mut result, scanline),
            ScanLineFilterType::Average => filter_average(&mut result, scanline, bpp),
            ScanLineFilterType::Paeth => filter_paeth(&mut result, scanline, bpp),
        }
        proof {
            let row = reconstruct_row(filter_type, bpp as nat, filt, above);
            assert(rows_of(result@) == rows_before.update(scanline as int, row));
            law_reconstruct_row_len(filter_type, bpp as nat, filt, above);
            assert(rows_of(result@).take(scanline + 1) =~= done.push(row));
            assert forall|j: int| 0 <= j < count implies (#[trigger] result[j]).len() == tagged[0].len()
                - 1 by {
                assert(rows_of(result@)[j].len() == rows_before.update(scanline as int, row)[j].len());
            }
            assert forall|j: int| scanline + 1 <= j < count implies (#[trigger] result[j])@
                == tagged[j].skip(1) by {
                assert(rows_of(result@)[j] == rows_before[j]);
            }
        }
        scanline += 1;
    }
    proof {
        assert(rows_of(result@).take(count as int) =~= rows_of(result@));
    }
    Ok(result)
}

} // verus!
