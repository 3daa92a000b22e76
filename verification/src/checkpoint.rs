//! The binary checkpoint format of a model's parameters.
//!
//! A checkpoint is the magic `INFC`, the format version and the parameter count,
//! then for each parameter its rank, its dimensions and the bit patterns of its
//! values; every number is a little-endian `u32`.
use vstd::prelude::*;

use crate::shape::{checked_numel, prefix_sizes_fit, shape_size};

verus! {

/// The format version this library writes and reads.
pub const CHECKPOINT_VERSION: u32 = 1;

/// One parameter as it is stored: its shape and the bit patterns of its values.
pub struct ParamData {
    pub shape: Vec<usize>,
    pub bits: Vec<u32>,
}

/// Why a checkpoint could not be read.
#[derive(Debug)]
pub enum CheckpointError {
    /// The bytes end inside a field.
    Truncated,
    /// The file does not start with the magic `INFC`.
    BadMagic,
    /// The file holds another format version.
    UnsupportedVersion(u32),
    /// The file holds this many parameters, not as many as were asked for.
    CountMismatch(usize),
    /// The parameter at `index` has shape `found` in the file, not the one asked for.
    ShapeMismatch { index: usize, found: Vec<usize> },
}

pub open spec fn magic() -> Seq<u8> {
    seq![0x49u8, 0x4eu8, 0x46u8, 0x43u8]
}

/// The little-endian bytes of a `u32`.
pub open spec fn le32(x: u32) -> Seq<u8> {
    seq![
        (x % 256) as u8,
        ((x / 256) % 256) as u8,
        ((x / 65536) % 256) as u8,
        (x / 16777216) as u8,
    ]
}

/// The little-endian bytes of a sequence of `u32`s, one after the other.
pub open spec fn le32_words(ws: Seq<u32>) -> Seq<u8>
    decreases ws.len(),
{
    if ws.len() == 0 {
        Seq::empty()
    } else {
        le32_words(ws.drop_last()) + le32(ws.last())
    }
}

/// The bytes of one parameter: its rank, its dimensions, its values.
pub open spec fn encode_param(p: ParamData) -> Seq<u8> {
    le32(p.shape@.len() as u32) + le32_words(p.shape@.map_values(|d: usize| d as u32)) + le32_words(
        p.bits@,
    )
}

pub open spec fn encode_params(ps: Seq<ParamData>) -> Seq<u8>
    decreases ps.len(),
{
    if ps.len() == 0 {
        Seq::empty()
    } else {
        encode_params(ps.drop_last()) + encode_param(ps.last())
    }
}

/// The bytes of a checkpoint of the given parameters.
pub open spec fn checkpoint_bytes(ps: Seq<ParamData>) -> Seq<u8> {
    magic() + le32(CHECKPOINT_VERSION) + le32(ps.len() as u32) + encode_params(ps)
}

/// The little-endian `u32` stored at `pos`.
pub open spec fn u32_at(b: Seq<u8>, pos: int) -> int {
    b[pos] as int + 256 * (b[pos + 1] as int) + 65536 * (b[pos + 2] as int) + 16777216 * (b[pos
        + 3] as int)
}

/// The header is whole, has the magic and version, and announces `count` parameters.
pub open spec fn header_ok(b: Seq<u8>, count: int) -> bool {
    &&& b.len() >= 12
    &&& b.subrange(0, 4) == magic()
    &&& u32_at(b, 4) == CHECKPOINT_VERSION
    &&& u32_at(b, 8) == count
}

/// The error met while reading a header that is not `header_ok`, checking its
/// fields in order.
pub open spec fn describes_header_error(e: CheckpointError, b: Seq<u8>, count: int) -> bool {
    if b.len() < 4 {
        e is Truncated
    } else if b.subrange(0, 4) != magic() {
        e is BadMagic
    } else if b.len() < 8 {
        e is Truncated
    } else if u32_at(b, 4) != CHECKPOINT_VERSION {
        e == CheckpointError::UnsupportedVersion(u32_at(b, 4) as u32)
    } else if b.len() < 12 {
        e is Truncated
    } else {
        e == CheckpointError::CountMismatch(u32_at(b, 8) as usize)
    }
}

/// Bytes taken by a parameter of the given shape.
pub open spec fn block_len(shape: Seq<usize>) -> int {
    (4 + 4 * shape.len() + 4 * shape_size(shape)) as int
}

/// Where the record of parameter `p` starts, when the parameters before it have
/// the expected shapes.
pub open spec fn block_start(shapes: Seq<Seq<usize>>, p: int) -> int
    decreases p,
{
    if p <= 0 {
        12
    } else {
        block_start(shapes, p - 1) + block_len(shapes[p - 1])
    }
}

/// The rank field of the record at `s`, or one of its dimensions, is cut off.
pub open spec fn rank_truncated_at(b: Seq<u8>, s: int) -> bool {
    s + 4 > b.len() || s + 4 + 4 * u32_at(b, s) > b.len()
}

/// The shape stored in the record at `s`.
pub open spec fn found_shape_at(b: Seq<u8>, s: int) -> Seq<usize> {
    Seq::new(u32_at(b, s) as nat, |k: int| u32_at(b, s + 4 + 4 * k) as usize)
}

/// The record at `s` holds the expected shape and all of its values.
pub open spec fn reads_at(b: Seq<u8>, s: int, shape: Seq<usize>) -> bool {
    &&& !rank_truncated_at(b, s)
    &&& found_shape_at(b, s) == shape
    &&& s + block_len(shape) <= b.len()
}

/// The value bits stored in the record at `s`, of the given shape.
pub open spec fn found_values_at(b: Seq<u8>, s: int, shape: Seq<usize>) -> Seq<u32> {
    Seq::new(shape_size(shape), |k: int| u32_at(b, s + 4 + 4 * shape.len() + 4 * k) as u32)
}

/// The error met while reading the record of parameter `index` at `s` when it
/// does not `reads_at`.
pub open spec fn describes_param_error(
    e: CheckpointError,
    b: Seq<u8>,
    s: int,
    shape: Seq<usize>,
    index: int,
) -> bool {
    if rank_truncated_at(b, s) {
        e is Truncated
    } else if found_shape_at(b, s) != shape {
        e matches CheckpointError::ShapeMismatch { index: i, found } && i == index && found@
            == found_shape_at(b, s)
    } else {
        e is Truncated
    }
}

/// Parameter `p` is read whole, with the expected shape.
pub open spec fn param_reads(b: Seq<u8>, shapes: Seq<Seq<usize>>, p: int) -> bool {
    reads_at(b, block_start(shapes, p), shapes[p])
}

/// The value bits stored for parameter `p`.
pub open spec fn found_values(b: Seq<u8>, shapes: Seq<Seq<usize>>, p: int) -> Seq<u32> {
    found_values_at(b, block_start(shapes, p), shapes[p])
}

pub open spec fn shapes_of(shapes: Seq<Vec<usize>>) -> Seq<Seq<usize>> {
    shapes.map_values(|v: Vec<usize>| v@)
}

proof fn lemma_le32_value(x: u32)
    ensures
        u32_at(le32(x), 0) == x,
{
    assert(((x % 256) as u8) as int + 256 * (((x / 256) % 256) as u8) as int + 65536 * (((x / 65536)
        % 256) as u8) as int + 16777216 * ((x / 16777216) as u8) as int == x) by (bit_vector);
}

fn push_u32(out: &mut Vec<u8>, x: u32)
    ensures
        final(out)@ == old(out)@ + le32(x),
{
    out.push((x % 256) as u8);
    out.push(((x / 256) % 256) as u8);
    out.push(((x / 65536) % 256) as u8);
    out.push((x / 16777216) as u8);
    assert(out@ =~= old(out)@ + le32(x));
}

fn push_words(out: &mut Vec<u8>, ws: &[u32])
    ensures
        final(out)@ == old(out)@ + le32_words(ws@),
{
    let mut i: usize = 0;
    assert(ws@.subrange(0, 0) =~= Seq::<u32>::empty());
    assert(out@ =~= old(out)@ + le32_words(ws@.subrange(0, 0)));
    while i < ws.len()
        invariant
            i <= ws.len(),
            out@ == old(out)@ + le32_words(ws@.subrange(0, i as int)),
        decreases ws.len() - i,
    {
        push_u32(out, ws[i]);
        assert(ws@.subrange(0, i + 1).drop_last() =~= ws@.subrange(0, i as int));
        assert(out@ =~= old(out)@ + le32_words(ws@.subrange(0, i + 1)));
        i = i + 1;
    }
    assert(ws@.subrange(0, ws.len() as int) =~= ws@);
}

fn push_dims(out: &mut Vec<u8>, dims: &[usize])
    ensures
        final(out)@ == old(out)@ + le32_words(dims@.map_values(|d: usize| d as u32)),
{
    let ghost ws = dims@.map_values(|d: usize| d as u32);
    let mut i: usize = 0;
    assert(ws.subrange(0, 0) =~= Seq::<u32>::empty());
    assert(out@ =~= old(out)@ + le32_words(ws.subrange(0, 0)));
    while i < dims.len()
        invariant
            i <= dims.len(),
            ws == dims@.map_values(|d: usize| d as u32),
            out@ == old(out)@ + le32_words(ws.subrange(0, i as int)),
        decreases dims.len() - i,
    {
        push_u32(out, dims[i] as u32);
        assert(ws.subrange(0, i + 1).drop_last() =~= ws.subrange(0, i as int));
        assert(ws.subrange(0, i + 1).last() == dims[i as int] as u32);
        assert(out@ =~= old(out)@ + le32_words(ws.subrange(0, i + 1)));
        i = i + 1;
    }
    assert(ws.subrange(0, dims.len() as int) =~= ws);
}

/// The checkpoint bytes of the given parameters. Counts and dimensions are
/// written as `u32`, truncating larger values.
pub fn encode_checkpoint(params: &[ParamData]) -> (bytes: Vec<u8>)
    ensures
        bytes@ == checkpoint_bytes(params@),
{
    let mut out: Vec<u8> = Vec::new();
    out.push(0x49u8);
    out.push(0x4eu8);
    out.push(0x46u8);
    out.push(0x43u8);
    assert(out@ =~= magic());
    push_u32(&mut out, CHECKPOINT_VERSION);
    push_u32(&mut out, params.len() as u32);
    let ghost header = out@;
    let mut i: usize = 0;
    assert(params@.subrange(0, 0) =~= Seq::<ParamData>::empty());
    assert(out@ =~= header + encode_params(params@.subrange(0, 0)));
    while i < params.len()
        invariant
            i <= params.len(),
            header == magic() + le32(CHECKPOINT_VERSION) + le32(params@.len() as u32),
            out@ == header + encode_params(params@.subrange(0, i as int)),
        decreases params.len() - i,
    {
        let p = &params[i];
        push_u32(&mut out, p.shape.len() as u32);
        push_dims(&mut out, p.shape.as_slice());
        push_words(&mut out, p.bits.as_slice());
        assert(params@.subrange(0, i + 1).drop_last() =~= params@.subrange(0, i as int));
        assert(params@.subrange(0, i + 1).last() == params@[i as int]);
        assert(out@ =~= header + encode_params(params@.subrange(0, i + 1)));
        i = i + 1;
    }
    assert(params@.subrange(0, params.len() as int) =~= params@);
    out
}

/// The little-endian `u32` stored at `pos`.
pub fn read_u32(b: &[u8], pos: usize) -> (v: u32)
    requires
        pos + 4 <= b.len(),
    ensures
        v == u32_at(b@, pos as int),
{
    b[pos] as u32 + (b[pos + 1] as u32) * 256 + (b[pos + 2] as u32) * 65536 + (b[pos + 3] as u32)
        * 16777216
}

fn same_shape(a: &[usize], b: &[usize]) -> (r: bool)
    ensures
        r == (a@ == b@),
{
    if a.len() != b.len() {
        return false;
    }
    let mut i: usize = 0;
    while i < a.len()
        invariant
            a.len() == b.len(),
            i <= a.len(),
            forall|j: int| 0 <= j < i ==> a@[j] == b@[j],
        decreases a.len() - i,
    {
        if a[i] != b[i] {
            return false;
        }
        i = i + 1;
    }
    assert(a@ =~= b@);
    true
}

/// Reads the record of parameter `index`, expected to have shape `expected`,
/// starting at byte `s`; on success also gives the position after it.
fn read_param(b: &[u8], s: usize, expected: &[usize], index: usize) -> (r: Result<
    (Vec<u32>, usize),
    CheckpointError,
>)
    requires
        s <= b.len(),
        prefix_sizes_fit(expected@),
    ensures
        match r {
            Ok((vals, next)) => {
                &&& reads_at(b@, s as int, expected@)
                &&& vals@ == found_values_at(b@, s as int, expected@)
                &&& next == s + block_len(expected@)
            },
            Err(e) => !reads_at(b@, s as int, expected@) && describes_param_error(
                e,
                b@,
                s as int,
                expected@,
                index as int,
            ),
        },
{
    let n = b.len();
    if n - s < 4 {
        return Err(CheckpointError::Truncated);
    }
    let rank = read_u32(b, s) as usize;
    let mut pos = s + 4;
    let mut found: Vec<usize> = Vec::new();
    let mut k: usize = 0;
    while k < rank
        invariant
            n == b.len(),
            s + 4 <= n,
            rank == u32_at(b@, s as int),
            k <= rank,
            pos == s + 4 + 4 * k,
            pos <= n,
            found@ == Seq::new(k as nat, |j: int| u32_at(b@, s + 4 + 4 * j) as usize),
        decreases rank - k,
    {
        if n - pos < 4 {
            return Err(CheckpointError::Truncated);
        }
        let d = read_u32(b, pos) as usize;
        found.push(d);
        assert(found@ =~= Seq::new((k + 1) as nat, |j: int| u32_at(b@, s + 4 + 4 * j) as usize));
        pos = pos + 4;
        k = k + 1;
    }
    assert(found@ =~= found_shape_at(b@, s as int));
    if !same_shape(found.as_slice(), expected) {
        return Err(CheckpointError::ShapeMismatch { index, found });
    }
    let m = match checked_numel(expected) {
        Some(m) => m,
        None => {
            return Err(CheckpointError::Truncated);
        },
    };
    let data_start = pos;
    let mut vals: Vec<u32> = Vec::new();
    let mut j: usize = 0;
    while j < m
        invariant
            n == b.len(),
            m == shape_size(expected@),
            data_start == s + 4 + 4 * expected.len(),
            data_start <= n,
            s <= n,
            found_shape_at(b@, s as int) == expected@,
            !rank_truncated_at(b@, s as int),
            j <= m,
            pos == data_start + 4 * j,
            pos <= n,
            vals@ == Seq::new(j as nat, |i: int| u32_at(b@, data_start + 4 * i) as u32),
        decreases m - j,
    {
        if n - pos < 4 {
            return Err(CheckpointError::Truncated);
        }
        let v = read_u32(b, pos);
        vals.push(v);
        assert(vals@ =~= Seq::new((j + 1) as nat, |i: int| u32_at(b@, data_start + 4 * i) as u32));
        pos = pos + 4;
        j = j + 1;
    }
    assert(vals@ =~= found_values_at(b@, s as int, expected@));
    Ok((vals, pos))
}

/// Reads a checkpoint of parameters of the given shapes: the value bits of the
/// parameters read in order, and the error that stopped the reading, if any.
pub fn decode_checkpoint(bytes: &[u8], shapes: &[Vec<usize>]) -> (r: (Vec<Vec<u32>>, Option<
    CheckpointError,
>))
    requires
        forall|p: int| 0 <= p < shapes.len() ==> prefix_sizes_fit(#[trigger] shapes@[p]@),
    ensures
        ({
            let (values, error) = r;
            let sh = shapes_of(shapes@);
            if !header_ok(bytes@, shapes.len() as int) {
                &&& values.len() == 0
                &&& error matches Some(e) && describes_header_error(e, bytes@, shapes.len() as int)
            } else {
                &&& values.len() <= shapes.len()
                &&& forall|q: int|
                    #![trigger values@[q]] #![trigger param_reads(bytes@, sh, q)]
                    0 <= q < values.len() ==> param_reads(bytes@, sh, q) && values@[q]@
                        == found_values(bytes@, sh, q)
                &&& (error is Some <==> values.len() < shapes.len())
                &&& error matches Some(e) ==> !param_reads(bytes@, sh, values.len() as int)
                    && describes_param_error(
                    e,
                    bytes@,
                    block_start(sh, values.len() as int),
                    sh[values.len() as int],
                    values.len() as int,
                )
            }
        }),
{
    let n = bytes.len();
    let mut values: Vec<Vec<u32>> = Vec::new();
    if n < 4 {
        return (values, Some(CheckpointError::Truncated));
    }
    if !(bytes[0] == 0x49u8 && bytes[1] == 0x4eu8 && bytes[2] == 0x46u8 && bytes[3] == 0x43u8) {
        proof {
            if bytes@.subrange(0, 4) == magic() {
                assert(bytes@.subrange(0, 4)[0] == 0x49u8);
                assert(bytes@.subrange(0, 4)[1] == 0x4eu8);
                assert(bytes@.subrange(0, 4)[2] == 0x46u8);
                assert(bytes@.subrange(0, 4)[3] == 0x43u8);
            }
        }
        return (values, Some(CheckpointError::BadMagic));
    }
    assert(bytes@.subrange(0, 4) =~= magic());
    if n < 8 {
        return (values, Some(CheckpointError::Truncated));
    }
    let version = read_u32(bytes, 4);
    if version != CHECKPOINT_VERSION {
        return (values, Some(CheckpointError::UnsupportedVersion(version)));
    }
    if n < 12 {
        return (values, Some(CheckpointError::Truncated));
    }
    let count = read_u32(bytes, 8) as usize;
    if count != shapes.len() {
        return (values, Some(CheckpointError::CountMismatch(count)));
    }
    let ghost sh = shapes_of(shapes@);
    let mut pos: usize = 12;
    let mut p: usize = 0;
    while p < shapes.len()
        invariant
            n == bytes.len(),
            header_ok(bytes@, shapes.len() as int),
            sh == shapes_of(shapes@),
            forall|q: int| 0 <= q < shapes.len() ==> prefix_sizes_fit(#[trigger] shapes@[q]@),
            p <= shapes.len(),
            pos == block_start(sh, p as int),
            pos <= n,
            values.len() == p,
            forall|q: int|
                #![trigger values@[q]] #![trigger param_reads(bytes@, sh, q)]
                0 <= q < p ==> param_reads(bytes@, sh, q) && values@[q]@ == found_values(
                    bytes@,
                    sh,
                    q,
                ),
        decreases shapes.len() - p,
    {
        assert(sh[p as int] == shapes@[p as int]@);
        match read_param(bytes, pos, shapes[p].as_slice(), p) {
            Ok((vals, next)) => {
                assert(reads_at(bytes@, pos as int, sh[p as int]));
                assert(vals@ == found_values(bytes@, sh, p as int));
                let ghost old_values = values@;
                values.push(vals);
                assert(block_start(sh, p + 1) == block_start(sh, p as int) + block_len(sh[p as int]));
                assert forall|q: int| #![trigger values@[q]] #![trigger param_reads(bytes@, sh, q)] 0 <= q < p + 1 implies param_reads(bytes@, sh, q)
                    && values@[q]@ == found_values(bytes@, sh, q) by {
                    if q < p {
                        assert(values@[q] == old_values[q]);
                    } else {
                        assert(q == p);
                        assert(values@[q] == vals);
                        assert(param_reads(bytes@, sh, q));
                        assert(values@[q]@ == found_values(bytes@, sh, q));
                    }
                }
                pos = next;
                p = p + 1;
            },
            Err(e) => {
                assert(describes_param_error(e, bytes@, block_start(sh, p as int), sh[p as int], p as int));
                assert(!param_reads(bytes@, sh, p as int));
                return (values, Some(e));
            },
        }
    }
    assert(header_ok(bytes@, shapes.len() as int));
    assert(values.len() == shapes.len());
    (values, None)
}

/// The shapes of a list of parameters.
pub open spec fn param_shapes(ps: Seq<ParamData>) -> Seq<Seq<usize>> {
    ps.map_values(|x: ParamData| x.shape@)
}

/// A parameter fits the format: its rank and dimensions fit a `u32`, and it
/// holds one value per element of its shape.
pub open spec fn storable(p: ParamData) -> bool {
    &&& p.shape@.len() <= u32::MAX
    &&& forall|k: int| 0 <= k < p.shape@.len() ==> #[trigger] p.shape@[k] <= u32::MAX
    &&& p.bits@.len() == shape_size(p.shape@)
}

proof fn lemma_words_len(ws: Seq<u32>)
    ensures
        le32_words(ws).len() == 4 * ws.len(),
    decreases ws.len(),
{
    if ws.len() > 0 {
        lemma_words_len(ws.drop_last());
    }
}

proof fn lemma_u32_at_prefix(a: Seq<u8>, c: Seq<u8>, pos: int)
    requires
        0 <= pos,
        pos + 4 <= a.len(),
    ensures
        u32_at(a + c, pos) == u32_at(a, pos),
{
    assert((a + c)[pos] == a[pos]);
    assert((a + c)[pos + 1] == a[pos + 1]);
    assert((a + c)[pos + 2] == a[pos + 2]);
    assert((a + c)[pos + 3] == a[pos + 3]);
}

proof fn lemma_u32_at_suffix(a: Seq<u8>, c: Seq<u8>, pos: int)
    requires
        0 <= pos,
        pos + 4 <= c.len(),
    ensures
        u32_at(a + c, a.len() + pos) == u32_at(c, pos),
{
    assert((a + c)[a.len() + pos] == c[pos]);
    assert((a + c)[a.len() + pos + 1] == c[pos + 1]);
    assert((a + c)[a.len() + pos + 2] == c[pos + 2]);
    assert((a + c)[a.len() + pos + 3] == c[pos + 3]);
}

proof fn lemma_u32_at_sub(b: Seq<u8>, t: Seq<u8>, off: int, pos: int)
    requires
        0 <= off,
        off + t.len() <= b.len(),
        b.subrange(off, off + t.len()) == t,
        0 <= pos,
        pos + 4 <= t.len(),
    ensures
        u32_at(b, off + pos) == u32_at(t, pos),
{
    assert(b.subrange(off, off + t.len())[pos] == b[off + pos]);
    assert(b.subrange(off, off + t.len())[pos + 1] == b[off + pos + 1]);
    assert(b.subrange(off, off + t.len())[pos + 2] == b[off + pos + 2]);
    assert(b.subrange(off, off + t.len())[pos + 3] == b[off + pos + 3]);
}

proof fn lemma_words_at(ws: Seq<u32>, k: int)
    requires
        0 <= k < ws.len(),
    ensures
        u32_at(le32_words(ws), 4 * k) == ws[k],
    decreases ws.len(),
{
    let w = le32_words(ws.drop_last());
    lemma_words_len(ws.drop_last());
    if k < ws.len() - 1 {
        lemma_words_at(ws.drop_last(), k);
        lemma_u32_at_prefix(w, le32(ws.last()), 4 * k);
    } else {
        lemma_le32_value(ws.last());
        lemma_u32_at_suffix(w, le32(ws.last()), 0);
    }
}

proof fn lemma_block_start_prefix(ps: Seq<ParamData>, p: int)
    requires
        0 <= p < ps.len(),
    ensures
        block_start(param_shapes(ps.drop_last()), p) == block_start(param_shapes(ps), p),
    decreases p,
{
    if p > 0 {
        lemma_block_start_prefix(ps, p - 1);
        assert(param_shapes(ps.drop_last())[p - 1] == param_shapes(ps)[p - 1]);
    }
}

proof fn lemma_block_start_mono(shapes: Seq<Seq<usize>>, p: int, q: int)
    requires
        0 <= p <= q,
    ensures
        block_start(shapes, p) <= block_start(shapes, q),
    decreases q - p,
{
    if p < q {
        lemma_block_start_mono(shapes, p, q - 1);
        assert(block_len(shapes[q - 1]) >= 0);
    }
}

proof fn lemma_param_len(x: ParamData)
    requires
        storable(x),
    ensures
        encode_param(x).len() == block_len(x.shape@),
{
    lemma_words_len(x.shape@.map_values(|d: usize| d as u32));
    lemma_words_len(x.bits@);
}

proof fn lemma_layout_earlier(ps: Seq<ParamData>, p: int)
    requires
        0 <= p < ps.len() - 1,
        encode_params(ps.drop_last()).len() == block_start(param_shapes(ps.drop_last()), ps.len() - 1) - 12,
        encode_params(ps.drop_last()).subrange(
            block_start(param_shapes(ps.drop_last()), p) - 12,
            block_start(param_shapes(ps.drop_last()), p) - 12 + block_len(ps[p].shape@),
        ) == encode_param(ps.drop_last()[p]),
    ensures
        encode_params(ps).subrange(
            block_start(param_shapes(ps), p) - 12,
            block_start(param_shapes(ps), p) - 12 + block_len(ps[p].shape@),
        ) == encode_param(ps[p]),
{
    let init = ps.drop_last();
    let n = ps.len() as int;
    let e0 = encode_params(init);
    let last = encode_param(ps.last());
    assert(encode_params(ps) == e0 + last);
    lemma_block_start_prefix(ps, p);
    lemma_block_start_prefix(ps, p + 1);
    lemma_block_start_prefix(ps, n - 1);
    lemma_block_start_mono(param_shapes(init), p + 1, n - 1);
    assert(param_shapes(init)[p] == ps[p].shape@);
    let lo = block_start(param_shapes(ps), p) - 12;
    let hi = lo + block_len(ps[p].shape@);
    assert(lo >= 0) by {
        lemma_block_start_mono(param_shapes(ps), 0, p);
    }
    assert(hi <= e0.len());
    assert((e0 + last).subrange(lo, hi) =~= e0.subrange(lo, hi));
}

#[verifier::spinoff_prover]
#[verifier::rlimit(30)]
proof fn lemma_params_layout(ps: Seq<ParamData>)
    requires
        forall|i: int| 0 <= i < ps.len() ==> storable(#[trigger] ps[i]),
    ensures
        encode_params(ps).len() == block_start(param_shapes(ps), ps.len() as int) - 12,
        forall|p: int|
            0 <= p < ps.len() ==> encode_params(ps).subrange(
                block_start(param_shapes(ps), p) - 12,
                block_start(param_shapes(ps), p) - 12 + block_len(ps[p].shape@),
            ) == encode_param(#[trigger] ps[p]),
    decreases ps.len(),
{
    if ps.len() > 0 {
        let n = ps.len() as int;
        let init = ps.drop_last();
        assert forall|i: int| 0 <= i < init.len() implies storable(#[trigger] init[i]) by {
            assert(init[i] == ps[i]);
        }
        lemma_params_layout(init);
        lemma_block_start_prefix(ps, n - 1);
        let e0 = encode_params(init);
        let last = encode_param(ps.last());
        assert(storable(ps[n - 1]));
        lemma_param_len(ps.last());
        assert(param_shapes(ps)[n - 1] == ps.last().shape@);
        assert(encode_params(ps) == e0 + last);
        assert forall|p: int| 0 <= p < ps.len() implies encode_params(ps).subrange(
            block_start(param_shapes(ps), p) - 12,
            block_start(param_shapes(ps), p) - 12 + block_len(ps[p].shape@),
        ) == encode_param(#[trigger] ps[p]) by {
            if p < n - 1 {
                assert(init[p] == ps[p]);
                lemma_layout_earlier(ps, p);
            } else {
                assert((e0 + last).subrange(e0.len() as int, (e0.len() + last.len()) as int) =~= last);
            }
        }
    }
}

proof fn lemma_header_round_trip(ps: Seq<ParamData>)
    requires
        ps.len() <= u32::MAX,
    ensures
        header_ok(checkpoint_bytes(ps), ps.len() as int),
{
    let b = checkpoint_bytes(ps);
    let e = encode_params(ps);
    let v = le32(CHECKPOINT_VERSION);
    let c = le32(ps.len() as u32);
    lemma_le32_value(CHECKPOINT_VERSION);
    lemma_le32_value(ps.len() as u32);
    assert(b =~= magic() + (v + (c + e)));
    assert(b.subrange(0, 4) =~= magic());
    lemma_u32_at_prefix(v, c + e, 0);
    lemma_u32_at_suffix(magic(), v + (c + e), 0);
    lemma_u32_at_prefix(c, e, 0);
    lemma_u32_at_suffix(v, c + e, 0);
    assert(magic().len() + v.len() == 8);
    assert(u32_at(magic() + (v + (c + e)), 8) == u32_at(v + (c + e), 4)) by {
        lemma_u32_at_suffix(magic(), v + (c + e), 4);
    }
}

proof fn lemma_record_reads(b: Seq<u8>, s: int, x: ParamData)
    requires
        storable(x),
        0 <= s,
        s + block_len(x.shape@) <= b.len(),
        b.subrange(s, s + block_len(x.shape@)) == encode_param(x),
    ensures
        reads_at(b, s, x.shape@),
        found_values_at(b, s, x.shape@) == x.bits@,
{
    let r = encode_param(x);
    let rank = x.shape@.len();
    let dims = x.shape@.map_values(|d: usize| d as u32);
    lemma_param_len(x);
    lemma_words_len(dims);
    lemma_words_len(x.bits@);
    lemma_le32_value(rank as u32);
    assert(r =~= le32(rank as u32) + (le32_words(dims) + le32_words(x.bits@)));
    lemma_u32_at_prefix(le32(rank as u32), le32_words(dims) + le32_words(x.bits@), 0);
    lemma_u32_at_sub(b, r, s, 0);
    assert(u32_at(b, s) == rank);
    assert forall|k: int| 0 <= k < rank implies #[trigger] u32_at(b, s + 4 + 4 * k) == x.shape@[k] by {
        lemma_words_at(dims, k);
        lemma_u32_at_prefix(le32_words(dims), le32_words(x.bits@), 4 * k);
        lemma_u32_at_suffix(le32(rank as u32), le32_words(dims) + le32_words(x.bits@), 4 * k);
        lemma_u32_at_sub(b, r, s, 4 + 4 * k);
        assert(x.shape@[k] <= u32::MAX);
    }
    assert(found_shape_at(b, s) =~= x.shape@);
    assert forall|k: int| 0 <= k < x.bits@.len() implies #[trigger] u32_at(
        b,
        s + 4 + 4 * rank + 4 * k,
    ) == x.bits@[k] by {
        lemma_words_at(x.bits@, k);
        assert(r =~= (le32(rank as u32) + le32_words(dims)) + le32_words(x.bits@));
        lemma_u32_at_suffix(le32(rank as u32) + le32_words(dims), le32_words(x.bits@), 4 * k);
        lemma_u32_at_sub(b, r, s, 4 + 4 * rank + 4 * k);
    }
    assert(found_values_at(b, s, x.shape@) =~= x.bits@);
}

proof fn lemma_record_in_checkpoint(ps: Seq<ParamData>, p: int)
    requires
        0 <= p < ps.len(),
        storable(ps[p]),
        encode_params(ps).len() == block_start(param_shapes(ps), ps.len() as int) - 12,
        encode_params(ps).subrange(
            block_start(param_shapes(ps), p) - 12,
            block_start(param_shapes(ps), p) - 12 + block_len(ps[p].shape@),
        ) == encode_param(ps[p]),
    ensures
        param_reads(checkpoint_bytes(ps), param_shapes(ps), p),
        found_values(checkpoint_bytes(ps), param_shapes(ps), p) == ps[p].bits@,
{
    let b = checkpoint_bytes(ps);
    let sh = param_shapes(ps);
    let e = encode_params(ps);
    let h = magic() + le32(CHECKPOINT_VERSION) + le32(ps.len() as u32);
    assert(b == h + e);
    let x = ps[p];
    let s = block_start(sh, p);
    assert(sh[p] == x.shape@);
    lemma_block_start_mono(sh, p + 1, ps.len() as int);
    lemma_block_start_mono(sh, 0, p);
    assert(b.subrange(s, s + block_len(x.shape@)) =~= e.subrange(s - 12, s - 12 + block_len(x.shape@)));
    lemma_record_reads(b, s, x);
}

proof fn lemma_param_round_trip(ps: Seq<ParamData>, p: int)
    requires
        0 <= p < ps.len(),
        forall|i: int| 0 <= i < ps.len() ==> storable(#[trigger] ps[i]),
    ensures
        param_reads(checkpoint_bytes(ps), param_shapes(ps), p),
        found_values(checkpoint_bytes(ps), param_shapes(ps), p) == ps[p].bits@,
{
    lemma_params_layout(ps);
    assert(storable(ps[p]));
    lemma_record_in_checkpoint(ps, p);
}

/// Reading back a checkpoint with the shapes it was written with gives back the
/// values of every parameter, whole and in order.
pub proof fn law_checkpoint_round_trip(ps: Seq<ParamData>)
    requires
        ps.len() <= u32::MAX,
        forall|i: int| 0 <= i < ps.len() ==> storable(#[trigger] ps[i]),
    ensures
        header_ok(checkpoint_bytes(ps), ps.len() as int),
        forall|p: int|
            #![trigger found_values(checkpoint_bytes(ps), param_shapes(ps), p)]
            #![trigger param_reads(checkpoint_bytes(ps), param_shapes(ps), p)]
            0 <= p < ps.len() ==> param_reads(checkpoint_bytes(ps), param_shapes(ps), p)
                && found_values(checkpoint_bytes(ps), param_shapes(ps), p) == ps[p].bits@,
{
    lemma_header_round_trip(ps);
    assert forall|p: int|
        #![trigger found_values(checkpoint_bytes(ps), param_shapes(ps), p)]
            #![trigger param_reads(checkpoint_bytes(ps), param_shapes(ps), p)]
        0 <= p < ps.len() implies param_reads(checkpoint_bytes(ps), param_shapes(ps), p)
            && found_values(checkpoint_bytes(ps), param_shapes(ps), p) == ps[p].bits@ by {
        lemma_param_round_trip(ps, p);
    }
}

} // verus!
