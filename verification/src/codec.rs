//! The wire codec: a `Sequence` record to and from a compact,
//! self-describing binary blob. Every length is carried in the blob itself
//! (64-bit little-endian prefixes), so a blob decodes without any shared
//! schema registry, and a malformed blob is rejected rather than misread.
//!
//! Layout of a blob, in order:
//! one version byte; the three annotation integers, each as four
//! little-endian bytes of the two's-complement bit pattern; one flag byte
//! (0 or 1); then the two frames. A frame is a column count followed by its
//! columns; a column is a length-prefixed name, then a cell count followed
//! by the cells, each as eight little-endian bytes.

use vstd::bytes::*;
use vstd::prelude::*;

use crate::data::ColModel;
use crate::data::Column;
use crate::data::Frame;
use crate::data::FrameModel;
use crate::data::Sequence;
use crate::data::SequenceModel;
use crate::data::lemma_frame_view_len;
use crate::errors::BufferError;

verus! {

/// First byte of every blob; a blob with any other first byte is rejected.
pub const WIRE_VERSION: u8 = 1;

/// The unsigned 32-bit pattern that stands for a signed annotation value.
pub open spec fn i32_to_u32(x: i32) -> u32 {
    if x >= 0 {
        x as u32
    } else {
        (x + 0x1_0000_0000) as u32
    }
}

/// The signed annotation value read back from its 32-bit pattern.
pub open spec fn u32_to_i32(x: u32) -> i32 {
    if x < 0x8000_0000 {
        x as i32
    } else {
        (x - 0x1_0000_0000) as i32
    }
}

/// The flag byte that stands for a boolean.
pub open spec fn bool_to_byte(b: bool) -> u8 {
    if b {
        1
    } else {
        0
    }
}

/// Reading a pattern back yields the value it stands for.
pub proof fn lemma_i32_round_trip(x: i32)
    ensures
        u32_to_i32(i32_to_u32(x)) == x,
{
}

/// Byte encoding of a run of cells, in order.
pub open spec fn spec_encode_vals(vs: Seq<u64>) -> Seq<u8>
    decreases vs.len(),
{
    if vs.len() == 0 {
        Seq::empty()
    } else {
        spec_u64_to_le_bytes(vs[0]) + spec_encode_vals(vs.drop_first())
    }
}

/// Byte encoding of one column: length-prefixed name, then count-prefixed
/// cells.
pub open spec fn spec_encode_col(c: ColModel) -> Seq<u8> {
    spec_u64_to_le_bytes(c.name.len() as u64) + c.name + spec_u64_to_le_bytes(
        c.values.len() as u64,
    ) + spec_encode_vals(c.values)
}

/// Byte encoding of a run of columns, in order.
pub open spec fn spec_encode_cols(cs: Seq<ColModel>) -> Seq<u8>
    decreases cs.len(),
{
    if cs.len() == 0 {
        Seq::empty()
    } else {
        spec_encode_col(cs[0]) + spec_encode_cols(cs.drop_first())
    }
}

/// Byte encoding of a frame: column count, then its columns.
pub open spec fn spec_encode_frame(f: FrameModel) -> Seq<u8> {
    spec_u64_to_le_bytes(f.columns.len() as u64) + spec_encode_cols(f.columns)
}

/// Byte encoding of a whole record: the blob that the buffer stores.
pub open spec fn spec_encode(s: SequenceModel) -> Seq<u8> {
    seq![WIRE_VERSION] + spec_u32_to_le_bytes(i32_to_u32(s.index)) + spec_u32_to_le_bytes(
        i32_to_u32(s.anomaly),
    ) + spec_u32_to_le_bytes(i32_to_u32(s.failure)) + seq![bool_to_byte(s.unseen)]
        + spec_encode_frame(s.sequence) + spec_encode_frame(s.saliency)
}

/// Appending one cell to a run appends its eight bytes to the encoding.
proof fn lemma_encode_vals_snoc(vs: Seq<u64>, v: u64)
    ensures
        spec_encode_vals(vs.push(v)) == spec_encode_vals(vs) + spec_u64_to_le_bytes(v),
    decreases vs.len(),
{
    let p = vs.push(v);
    if vs.len() == 0 {
        assert(p[0] == v);
        assert(p.drop_first() =~= Seq::<u64>::empty());
        assert(spec_encode_vals(p) == spec_u64_to_le_bytes(v) + spec_encode_vals(Seq::empty()));
        assert(spec_encode_vals(p) =~= spec_encode_vals(vs) + spec_u64_to_le_bytes(v));
    } else {
        assert(p[0] == vs[0]);
        assert(p.drop_first() =~= vs.drop_first().push(v));
        lemma_encode_vals_snoc(vs.drop_first(), v);
        assert(spec_encode_vals(p) == spec_u64_to_le_bytes(vs[0]) + (spec_encode_vals(
            vs.drop_first(),
        ) + spec_u64_to_le_bytes(v)));
        assert(spec_encode_vals(p) =~= spec_encode_vals(vs) + spec_u64_to_le_bytes(v));
    }
}

/// Appending one column to a run appends its encoding.
proof fn lemma_encode_cols_snoc(cs: Seq<ColModel>, c: ColModel)
    ensures
        spec_encode_cols(cs.push(c)) == spec_encode_cols(cs) + spec_encode_col(c),
    decreases cs.len(),
{
    let p = cs.push(c);
    if cs.len() == 0 {
        assert(p[0] == c);
        assert(p.drop_first() =~= Seq::<ColModel>::empty());
        assert(spec_encode_cols(p) == spec_encode_col(c) + spec_encode_cols(Seq::empty()));
        assert(spec_encode_cols(p) =~= spec_encode_cols(cs) + spec_encode_col(c));
    } else {
        assert(p[0] == cs[0]);
        assert(p.drop_first() =~= cs.drop_first().push(c));
        lemma_encode_cols_snoc(cs.drop_first(), c);
        assert(spec_encode_cols(p) == spec_encode_col(cs[0]) + (spec_encode_cols(cs.drop_first())
            + spec_encode_col(c)));
        assert(spec_encode_cols(p) =~= spec_encode_cols(cs) + spec_encode_col(c));
    }
}

/// Appends the eight little-endian bytes of `x`.
fn push_u64(out: &mut Vec<u8>, x: u64)
    ensures
        final(out)@ == old(out)@ + spec_u64_to_le_bytes(x),
{
    let mut b = u64_to_le_bytes(x);
    out.append(&mut b);
}

/// Appends the four little-endian bytes of `x`.
fn push_u32(out: &mut Vec<u8>, x: u32)
    ensures
        final(out)@ == old(out)@ + spec_u32_to_le_bytes(x),
{
    let mut b = u32_to_le_bytes(x);
    out.append(&mut b);
}

/// The 32-bit pattern of a signed annotation value.
fn i32_bits(x: i32) -> (r: u32)
    ensures
        r == i32_to_u32(x),
{
    if x >= 0 {
        x as u32
    } else {
        ((x as i64) + 0x1_0000_0000i64) as u32
    }
}

/// The signed annotation value of a 32-bit pattern.
fn bits_i32(x: u32) -> (r: i32)
    ensures
        r == u32_to_i32(x),
{
    if x < 0x8000_0000 {
        x as i32
    } else {
        ((x as i64) - 0x1_0000_0000i64) as i32
    }
}

/// Appends the bytes of `src`.
fn push_bytes(out: &mut Vec<u8>, src: &Vec<u8>)
    ensures
        final(out)@ == old(out)@ + src@,
{
    let mut j: usize = 0;
    while j < src.len()
        invariant
            0 <= j <= src@.len(),
            out@ == old(out)@ + src@.take(j as int),
        decreases src@.len() - j,
    {
        out.push(src[j]);
        proof {
            assert(old(out)@ + src@.take(j as int) + seq![src@[j as int]] =~= old(out)@
                + src@.take(j as int + 1));
        }
        j = j + 1;
    }
    proof {
        assert(src@.take(src@.len() as int) =~= src@);
    }
}

/// Appends the encoding of one column.
fn push_col(out: &mut Vec<u8>, c: &Column)
    ensures
        final(out)@ == old(out)@ + spec_encode_col(c@),
{
    push_u64(out, c.name.len() as u64);
    push_bytes(out, &c.name);
    push_u64(out, c.values.len() as u64);
    let ghost mid = out@;
    let mut j: usize = 0;
    while j < c.values.len()
        invariant
            0 <= j <= c.values@.len(),
            out@ == mid + spec_encode_vals(c.values@.take(j as int)),
        decreases c.values@.len() - j,
    {
        proof {
            lemma_encode_vals_snoc(c.values@.take(j as int), c.values@[j as int]);
            assert(c.values@.take(j as int).push(c.values@[j as int]) =~= c.values@.take(
                j as int + 1,
            ));
        }
        push_u64(out, c.values[j]);
        proof {
            assert(mid + spec_encode_vals(c.values@.take(j as int)) + spec_u64_to_le_bytes(
                c.values@[j as int],
            ) =~= mid + (spec_encode_vals(c.values@.take(j as int)) + spec_u64_to_le_bytes(
                c.values@[j as int],
            )));
        }
        j = j + 1;
    }
    proof {
        assert(c.values@.take(c.values@.len() as int) =~= c.values@);
        assert(out@ =~= old(out)@ + spec_encode_col(c@));
    }
}

/// Appends the encoding of one frame.
fn push_frame(out: &mut Vec<u8>, f: &Frame)
    ensures
        final(out)@ == old(out)@ + spec_encode_frame(f@),
{
    proof {
        lemma_frame_view_len(f);
    }
    push_u64(out, f.columns.len() as u64);
    let ghost mid = out@;
    let mut j: usize = 0;
    while j < f.columns.len()
        invariant
            0 <= j <= f.columns@.len(),
            out@ == mid + spec_encode_cols(f@.columns.take(j as int)),
            f@.columns.len() == f.columns@.len(),
            forall|k: int| 0 <= k < f.columns@.len() ==> f@.columns[k] == f.columns@[k]@,
        decreases f.columns@.len() - j,
    {
        proof {
            lemma_encode_cols_snoc(f@.columns.take(j as int), f@.columns[j as int]);
            assert(f@.columns.take(j as int).push(f@.columns[j as int]) =~= f@.columns.take(
                j as int + 1,
            ));
        }
        push_col(out, &f.columns[j]);
        proof {
            assert(mid + spec_encode_cols(f@.columns.take(j as int)) + spec_encode_col(
                f@.columns[j as int],
            ) =~= mid + (spec_encode_cols(f@.columns.take(j as int)) + spec_encode_col(
                f@.columns[j as int],
            )));
        }
        j = j + 1;
    }
    proof {
        assert(f@.columns.take(f@.columns.len() as int) =~= f@.columns);
        assert(out@ =~= old(out)@ + spec_encode_frame(f@));
    }
}

/// Parses one byte at `i`.
pub open spec fn take_byte(b: Seq<u8>, i: int) -> Option<(u8, int)> {
    if 0 <= i && i + 1 <= b.len() {
        Some((b[i], i + 1))
    } else {
        None
    }
}

/// Parses four little-endian bytes at `i`.
pub open spec fn take_u32(b: Seq<u8>, i: int) -> Option<(u32, int)> {
    if 0 <= i && i + 4 <= b.len() {
        Some((spec_u32_from_le_bytes(b.subrange(i, i + 4)), i + 4))
    } else {
        None
    }
}

/// Parses eight little-endian bytes at `i`.
pub open spec fn take_u64(b: Seq<u8>, i: int) -> Option<(u64, int)> {
    if 0 <= i && i + 8 <= b.len() {
        Some((spec_u64_from_le_bytes(b.subrange(i, i + 8)), i + 8))
    } else {
        None
    }
}

/// Parses a length-prefixed run of raw bytes at `i`.
pub open spec fn take_name(b: Seq<u8>, i: int) -> Option<(Seq<u8>, int)> {
    match take_u64(b, i) {
        None => None,
        Some((n, j)) => if j + n <= b.len() {
            Some((b.subrange(j, j + n), j + n))
        } else {
            None
        },
    }
}

/// Parses `n` cells at `i`.
pub open spec fn take_vals(b: Seq<u8>, i: int, n: int) -> Option<(Seq<u64>, int)>
    decreases n,
{
    if n <= 0 {
        Some((Seq::empty(), i))
    } else {
        match take_u64(b, i) {
            None => None,
            Some((v, j)) => match take_vals(b, j, n - 1) {
                None => None,
                Some((vs, k)) => Some((seq![v] + vs, k)),
            },
        }
    }
}

/// Parses one column at `i`.
pub open spec fn take_col(b: Seq<u8>, i: int) -> Option<(ColModel, int)> {
    match take_name(b, i) {
        None => None,
        Some((nm, j)) => match take_u64(b, j) {
            None => None,
            Some((cnt, k)) => match take_vals(b, k, cnt as int) {
                None => None,
                Some((vs, e)) => Some((ColModel { name: nm, values: vs }, e)),
            },
        },
    }
}

/// Parses `n` columns at `i`.
pub open spec fn take_cols(b: Seq<u8>, i: int, n: int) -> Option<(Seq<ColModel>, int)>
    decreases n,
{
    if n <= 0 {
        Some((Seq::empty(), i))
    } else {
        match take_col(b, i) {
            None => None,
            Some((c, j)) => match take_cols(b, j, n - 1) {
                None => None,
                Some((cs, k)) => Some((seq![c] + cs, k)),
            },
        }
    }
}

/// Parses one frame at `i`.
pub open spec fn take_frame(b: Seq<u8>, i: int) -> Option<(FrameModel, int)> {
    match take_u64(b, i) {
        None => None,
        Some((n, j)) => match take_cols(b, j, n as int) {
            None => None,
            Some((cs, k)) => Some((FrameModel { columns: cs }, k)),
        },
    }
}

/// What a blob decodes to: the record it encodes, or nothing. A blob
/// decodes only if its version byte is current, its flag byte is 0 or 1,
/// every length prefix is honoured exactly with no trailing bytes, and the
/// parsed record is well-formed.
pub open spec fn spec_decode(b: Seq<u8>) -> Option<SequenceModel> {
    match take_byte(b, 0) {
        None => None,
        Some((ver, i0)) => if ver != WIRE_VERSION {
            None
        } else {
            match take_u32(b, i0) {
                None => None,
                Some((ix, i1)) => match take_u32(b, i1) {
                    None => None,
                    Some((an, i2)) => match take_u32(b, i2) {
                        None => None,
                        Some((fl, i3)) => match take_byte(b, i3) {
                            None => None,
                            Some((un, i4)) => if un != 0 && un != 1 {
                                None
                            } else {
                                match take_frame(b, i4) {
                                    None => None,
                                    Some((sq, i5)) => match take_frame(b, i5) {
                                        None => None,
                                        Some((sl, i6)) => {
                                            let m = SequenceModel {
                                                index: u32_to_i32(ix),
                                                sequence: sq,
                                                anomaly: u32_to_i32(an),
                                                saliency: sl,
                                                failure: u32_to_i32(fl),
                                                unseen: un == 1,
                                            };
                                            if i6 == b.len() && m.wf() {
                                                Some(m)
                                            } else {
                                                None
                                            }
                                        },
                                    },
                                }
                            },
                        },
                    },
                },
            }
        },
    }
}

/// If a window of `b` holds `pre + mid + post`, the bytes of the inner
/// `mid` window are exactly `mid`.
proof fn lemma_parse_window(b: Seq<u8>, i: int, pre: Seq<u8>, mid: Seq<u8>, post: Seq<u8>)
    requires
        0 <= i,
        i + pre.len() + mid.len() + post.len() <= b.len(),
        b.subrange(i, i + pre.len() + mid.len() + post.len()) == pre + mid + post,
    ensures
        b.subrange(i + pre.len() as int, i + pre.len() + mid.len() as int) == mid,
{
    let w = pre + mid + post;
    assert forall|k: int| 0 <= k < mid.len() implies b.subrange(
        i + pre.len() as int,
        i + pre.len() + mid.len() as int,
    )[k] == mid[k] by {
        assert(w[pre.len() + k] == mid[k]);
        assert(b.subrange(i, i + w.len() as int)[pre.len() + k] == w[pre.len() + k]);
    }
    assert(b.subrange(i + pre.len() as int, i + pre.len() + mid.len() as int) =~= mid);
}

/// Eight bytes written by the cell encoder parse back to the cell.
proof fn lemma_take_u64_at(b: Seq<u8>, i: int, x: u64)
    requires
        0 <= i,
        i + 8 <= b.len(),
        b.subrange(i, i + 8) == spec_u64_to_le_bytes(x),
    ensures
        take_u64(b, i) == Some((x, i + 8)),
{
    lemma_auto_spec_u64_to_from_le_bytes();
}

/// Four bytes written by the annotation encoder parse back to the value.
proof fn lemma_take_u32_at(b: Seq<u8>, i: int, x: u32)
    requires
        0 <= i,
        i + 4 <= b.len(),
        b.subrange(i, i + 4) == spec_u32_to_le_bytes(x),
    ensures
        take_u32(b, i) == Some((x, i + 4)),
{
    lemma_auto_spec_u32_to_from_le_bytes();
    assert(spec_u32_to_le_bytes(x).len() == 4 && spec_u32_from_le_bytes(spec_u32_to_le_bytes(x))
        == x);
}

/// An encoded run of cells parses back to the run.
proof fn lemma_take_vals_at(b: Seq<u8>, i: int, vs: Seq<u64>)
    requires
        0 <= i,
        i + spec_encode_vals(vs).len() <= b.len(),
        b.subrange(i, i + spec_encode_vals(vs).len()) == spec_encode_vals(vs),
    ensures
        take_vals(b, i, vs.len() as int) == Some((vs, i + spec_encode_vals(vs).len())),
    decreases vs.len(),
{
    lemma_auto_spec_u64_to_from_le_bytes();
    let enc = spec_encode_vals(vs);
    if vs.len() == 0 {
        assert(vs =~= Seq::<u64>::empty());
    } else {
        let head = spec_u64_to_le_bytes(vs[0]);
        let rest = spec_encode_vals(vs.drop_first());
        assert(enc == head + rest);
        assert(Seq::<u8>::empty() + head + rest =~= enc);
        lemma_parse_window(b, i, Seq::empty(), head, rest);
        lemma_take_u64_at(b, i, vs[0]);
        assert(head + rest + Seq::<u8>::empty() =~= enc);
        lemma_parse_window(b, i, head, rest, Seq::empty());
        lemma_take_vals_at(b, i + 8, vs.drop_first());
        assert(seq![vs[0]] + vs.drop_first() =~= vs);
    }
}

/// An encoded column parses back to the column.
proof fn lemma_take_col_at(b: Seq<u8>, i: int, c: ColModel)
    requires
        c.wf(),
        0 <= i,
        i + spec_encode_col(c).len() <= b.len(),
        b.subrange(i, i + spec_encode_col(c).len()) == spec_encode_col(c),
    ensures
        take_col(b, i) == Some((c, i + spec_encode_col(c).len())),
{
    lemma_auto_spec_u64_to_from_le_bytes();
    let enc = spec_encode_col(c);
    let p1 = spec_u64_to_le_bytes(c.name.len() as u64);
    let p3 = spec_u64_to_le_bytes(c.values.len() as u64);
    let p4 = spec_encode_vals(c.values);
    assert(enc == p1 + c.name + p3 + p4);
    let j = i + 8;
    let k = j + c.name.len() as int;
    let l = k + 8;
    assert(Seq::<u8>::empty() + p1 + (c.name + p3 + p4) =~= enc);
    lemma_parse_window(b, i, Seq::empty(), p1, c.name + p3 + p4);
    lemma_take_u64_at(b, i, c.name.len() as u64);
    assert(p1 + c.name + (p3 + p4) =~= enc);
    lemma_parse_window(b, i, p1, c.name, p3 + p4);
    assert(take_name(b, i) == Some((c.name, k)));
    lemma_parse_window(b, i, p1 + c.name, p3, p4);
    lemma_take_u64_at(b, k, c.values.len() as u64);
    assert(p1 + c.name + p3 + p4 + Seq::<u8>::empty() =~= enc);
    lemma_parse_window(b, i, p1 + c.name + p3, p4, Seq::empty());
    lemma_take_vals_at(b, l, c.values);
    assert(ColModel { name: c.name, values: c.values } =~= c);
}

/// An encoded run of columns parses back to the run.
proof fn lemma_take_cols_at(b: Seq<u8>, i: int, cs: Seq<ColModel>)
    requires
        forall|k: int| 0 <= k < cs.len() ==> (#[trigger] cs[k]).wf(),
        0 <= i,
        i + spec_encode_cols(cs).len() <= b.len(),
        b.subrange(i, i + spec_encode_cols(cs).len()) == spec_encode_cols(cs),
    ensures
        take_cols(b, i, cs.len() as int) == Some((cs, i + spec_encode_cols(cs).len())),
    decreases cs.len(),
{
    let enc = spec_encode_cols(cs);
    if cs.len() == 0 {
        assert(cs =~= Seq::<ColModel>::empty());
    } else {
        let head = spec_encode_col(cs[0]);
        let rest = spec_encode_cols(cs.drop_first());
        assert(enc == head + rest);
        assert(Seq::<u8>::empty() + head + rest =~= enc);
        lemma_parse_window(b, i, Seq::empty(), head, rest);
        lemma_take_col_at(b, i, cs[0]);
        assert(head + rest + Seq::<u8>::empty() =~= enc);
        lemma_parse_window(b, i, head, rest, Seq::empty());
        lemma_take_cols_at(b, i + head.len() as int, cs.drop_first());
        assert(seq![cs[0]] + cs.drop_first() =~= cs);
    }
}

/// An encoded frame parses back to the frame.
proof fn lemma_take_frame_at(b: Seq<u8>, i: int, f: FrameModel)
    requires
        f.wf(),
        0 <= i,
        i + spec_encode_frame(f).len() <= b.len(),
        b.subrange(i, i + spec_encode_frame(f).len()) == spec_encode_frame(f),
    ensures
        take_frame(b, i) == Some((f, i + spec_encode_frame(f).len())),
{
    lemma_auto_spec_u64_to_from_le_bytes();
    let enc = spec_encode_frame(f);
    let p1 = spec_u64_to_le_bytes(f.columns.len() as u64);
    let rest = spec_encode_cols(f.columns);
    assert(enc == p1 + rest);
    assert(Seq::<u8>::empty() + p1 + rest =~= enc);
    lemma_parse_window(b, i, Seq::empty(), p1, rest);
    lemma_take_u64_at(b, i, f.columns.len() as u64);
    assert(p1 + rest + Seq::<u8>::empty() =~= enc);
    lemma_parse_window(b, i, p1, rest, Seq::empty());
    lemma_take_cols_at(b, i + 8, f.columns);
    assert(FrameModel { columns: f.columns } =~= f);
}

/// Round trip: every well-formed record decodes from its own encoding to
/// exactly itself, field for field, payload cells included.
#[verifier::rlimit(80)]
#[verifier::spinoff_prover]
pub proof fn lemma_round_trip(s: SequenceModel)
    requires
        s.wf(),
    ensures
        spec_decode(spec_encode(s)) == Some(s),
{
    lemma_auto_spec_u32_to_from_le_bytes();
    let b = spec_encode(s);
    let p1 = spec_u32_to_le_bytes(i32_to_u32(s.index));
    let p2 = spec_u32_to_le_bytes(i32_to_u32(s.anomaly));
    let p3 = spec_u32_to_le_bytes(i32_to_u32(s.failure));
    let f1 = spec_encode_frame(s.sequence);
    let f2 = spec_encode_frame(s.saliency);
    let pv = seq![WIRE_VERSION];
    let pu = seq![bool_to_byte(s.unseen)];
    assert(b == pv + p1 + p2 + p3 + pu + f1 + f2);
    assert(b.len() == 14 + f1.len() + f2.len());
    assert(b.subrange(0, b.len() as int) =~= b);
    assert(Seq::<u8>::empty() + pv + (p1 + p2 + p3 + pu + f1 + f2) =~= b);
    lemma_parse_window(b, 0, Seq::empty(), pv, p1 + p2 + p3 + pu + f1 + f2);
    assert(b.subrange(0, 1)[0] == WIRE_VERSION);
    assert(b[0] == WIRE_VERSION);
    assert(take_byte(b, 0) == Some((WIRE_VERSION, 1int)));
    assert(pv + p1 + (p2 + p3 + pu + f1 + f2) =~= b);
    lemma_parse_window(b, 0, pv, p1, p2 + p3 + pu + f1 + f2);
    lemma_take_u32_at(b, 1, i32_to_u32(s.index));
    assert(pv + p1 + p2 + (p3 + pu + f1 + f2) =~= b);
    lemma_parse_window(b, 0, pv + p1, p2, p3 + pu + f1 + f2);
    lemma_take_u32_at(b, 5, i32_to_u32(s.anomaly));
    assert(pv + p1 + p2 + p3 + (pu + f1 + f2) =~= b);
    lemma_parse_window(b, 0, pv + p1 + p2, p3, pu + f1 + f2);
    lemma_take_u32_at(b, 9, i32_to_u32(s.failure));
    assert(pv + p1 + p2 + p3 + pu + (f1 + f2) =~= b);
    lemma_parse_window(b, 0, pv + p1 + p2 + p3, pu, f1 + f2);
    assert(b.subrange(13, 14)[0] == bool_to_byte(s.unseen));
    assert(b[13] == bool_to_byte(s.unseen));
    assert(take_byte(b, 13) == Some((bool_to_byte(s.unseen), 14int)));
    lemma_parse_window(b, 0, pv + p1 + p2 + p3 + pu, f1, f2);
    lemma_take_frame_at(b, 14, s.sequence);
    assert(pv + p1 + p2 + p3 + pu + f1 + f2 + Seq::<u8>::empty() =~= b);
    lemma_parse_window(b, 0, pv + p1 + p2 + p3 + pu + f1, f2, Seq::empty());
    lemma_take_frame_at(b, 14 + f1.len() as int, s.saliency);
    lemma_i32_round_trip(s.index);
    lemma_i32_round_trip(s.anomaly);
    lemma_i32_round_trip(s.failure);
    let m = SequenceModel {
        index: u32_to_i32(i32_to_u32(s.index)),
        sequence: s.sequence,
        anomaly: u32_to_i32(i32_to_u32(s.anomaly)),
        saliency: s.saliency,
        failure: u32_to_i32(i32_to_u32(s.failure)),
        unseen: bool_to_byte(s.unseen) == 1,
    };
    assert(m =~= s);
    assert(spec_decode(b) == Some(s));
}

/// A parsed run of cells is the exact encoding of the bytes it consumed.
proof fn lemma_vals_sound(b: Seq<u8>, i: int, n: int)
    requires
        0 <= i <= b.len(),
        take_vals(b, i, n) is Some,
    ensures
        ({
            let (vs, e) = take_vals(b, i, n).unwrap();
            &&& i <= e <= b.len()
            &&& vs.len() == if n <= 0 {
                0
            } else {
                n
            }
            &&& b.subrange(i, e) == spec_encode_vals(vs)
        }),
    decreases n,
{
    lemma_auto_spec_u64_to_from_le_bytes();
    let (vs, e) = take_vals(b, i, n).unwrap();
    if n <= 0 {
        assert(b.subrange(i, i) =~= spec_encode_vals(vs));
    } else {
        let (v, j) = take_u64(b, i).unwrap();
        let (vs2, e2) = take_vals(b, j, n - 1).unwrap();
        lemma_vals_sound(b, j, n - 1);
        assert(b.subrange(i, j) =~= spec_u64_to_le_bytes(spec_u64_from_le_bytes(
            b.subrange(i, j),
        )));
        assert(vs.drop_first() =~= vs2);
        assert(b.subrange(i, e) =~= b.subrange(i, j) + b.subrange(j, e));
    }
}

/// A parsed column is the exact encoding of the bytes it consumed, and is
/// well-formed in its counts.
proof fn lemma_col_sound(b: Seq<u8>, i: int)
    requires
        0 <= i <= b.len(),
        take_col(b, i) is Some,
    ensures
        ({
            let (c, e) = take_col(b, i).unwrap();
            &&& i <= e <= b.len()
            &&& c.wf()
            &&& b.subrange(i, e) == spec_encode_col(c)
        }),
{
    lemma_auto_spec_u64_to_from_le_bytes();
    let (c, e) = take_col(b, i).unwrap();
    let (nm, j) = take_name(b, i).unwrap();
    let (cnt, k) = take_u64(b, j).unwrap();
    let (vs, e2) = take_vals(b, k, cnt as int).unwrap();
    lemma_vals_sound(b, k, cnt as int);
    assert(b.subrange(i, i + 8) =~= spec_u64_to_le_bytes(spec_u64_from_le_bytes(
        b.subrange(i, i + 8),
    )));
    assert(spec_u64_from_le_bytes(b.subrange(i, i + 8)) == nm.len() as u64);
    assert(b.subrange(i + 8, j) =~= nm);
    assert(b.subrange(j, k) =~= spec_u64_to_le_bytes(spec_u64_from_le_bytes(b.subrange(j, k))));
    assert(b.subrange(i, e) =~= b.subrange(i, i + 8) + b.subrange(i + 8, j) + b.subrange(j, k)
        + b.subrange(k, e));
}

/// A parsed run of columns is the exact encoding of the bytes it consumed.
proof fn lemma_cols_sound(b: Seq<u8>, i: int, n: int)
    requires
        0 <= i <= b.len(),
        take_cols(b, i, n) is Some,
    ensures
        ({
            let (cs, e) = take_cols(b, i, n).unwrap();
            &&& i <= e <= b.len()
            &&& cs.len() == if n <= 0 {
                0
            } else {
                n
            }
            &&& (forall|k: int| 0 <= k < cs.len() ==> (#[trigger] cs[k]).wf())
            &&& b.subrange(i, e) == spec_encode_cols(cs)
        }),
    decreases n,
{
    let (cs, e) = take_cols(b, i, n).unwrap();
    if n <= 0 {
        assert(b.subrange(i, i) =~= spec_encode_cols(cs));
    } else {
        let (c, j) = take_col(b, i).unwrap();
        let (cs2, e2) = take_cols(b, j, n - 1).unwrap();
        lemma_col_sound(b, i);
        lemma_cols_sound(b, j, n - 1);
        assert(cs.drop_first() =~= cs2);
        assert(cs[0] == c);
        assert(b.subrange(i, e) =~= b.subrange(i, j) + b.subrange(j, e));
    }
}

/// A parsed frame is the exact encoding of the bytes it consumed.
proof fn lemma_frame_sound(b: Seq<u8>, i: int)
    requires
        0 <= i <= b.len(),
        take_frame(b, i) is Some,
    ensures
        ({
            let (f, e) = take_frame(b, i).unwrap();
            &&& i <= e <= b.len()
            &&& f.columns.len() < 0x1_0000_0000_0000_0000
            &&& (forall|k: int| 0 <= k < f.columns.len() ==> (#[trigger] f.columns[k]).wf())
            &&& b.subrange(i, e) == spec_encode_frame(f)
        }),
{
    lemma_auto_spec_u64_to_from_le_bytes();
    let (f, e) = take_frame(b, i).unwrap();
    let (n, j) = take_u64(b, i).unwrap();
    lemma_cols_sound(b, j, n as int);
    assert(b.subrange(i, j) =~= spec_u64_to_le_bytes(spec_u64_from_le_bytes(b.subrange(i, j))));
    assert(spec_u64_from_le_bytes(b.subrange(i, j)) == f.columns.len() as u64);
    assert(b.subrange(i, e) =~= b.subrange(i, j) + b.subrange(j, e));
}

/// Soundness, the converse of the round trip: any blob that decodes at
/// all is exactly the encoding of the record it decodes to. Together with
/// the round trip this makes the format canonical — one blob per record,
/// one record per blob.
#[verifier::rlimit(80)]
#[verifier::spinoff_prover]
pub proof fn lemma_decode_sound(b: Seq<u8>)
    requires
        spec_decode(b) is Some,
    ensures
        spec_decode(b).unwrap().wf(),
        spec_encode(spec_decode(b).unwrap()) == b,
{
    lemma_auto_spec_u32_to_from_le_bytes();
    let m = spec_decode(b).unwrap();
    let (ver, i0) = take_byte(b, 0).unwrap();
    let (ix, i1) = take_u32(b, i0).unwrap();
    let (an, i2) = take_u32(b, i1).unwrap();
    let (fl, i3) = take_u32(b, i2).unwrap();
    let (un, i4) = take_byte(b, i3).unwrap();
    let (sq, i5) = take_frame(b, i4).unwrap();
    let (sl, i6) = take_frame(b, i5).unwrap();
    lemma_frame_sound(b, i4);
    lemma_frame_sound(b, i5);
    assert(b.subrange(0, 1) =~= seq![WIRE_VERSION]);
    assert(b.subrange(1, 5) =~= spec_u32_to_le_bytes(spec_u32_from_le_bytes(b.subrange(1, 5))));
    assert(spec_u32_from_le_bytes(b.subrange(1, 5)) == i32_to_u32(m.index)) by {
        lemma_i32_round_trip_rev(ix);
    }
    assert(b.subrange(5, 9) =~= spec_u32_to_le_bytes(spec_u32_from_le_bytes(b.subrange(5, 9))));
    assert(spec_u32_from_le_bytes(b.subrange(5, 9)) == i32_to_u32(m.anomaly)) by {
        lemma_i32_round_trip_rev(an);
    }
    assert(b.subrange(9, 13) =~= spec_u32_to_le_bytes(spec_u32_from_le_bytes(
        b.subrange(9, 13),
    )));
    assert(spec_u32_from_le_bytes(b.subrange(9, 13)) == i32_to_u32(m.failure)) by {
        lemma_i32_round_trip_rev(fl);
    }
    assert(b.subrange(13, 14) =~= seq![bool_to_byte(m.unseen)]);
    assert(b =~= b.subrange(0, 1) + b.subrange(1, 5) + b.subrange(5, 9) + b.subrange(9, 13)
        + b.subrange(13, 14) + b.subrange(14, i5) + b.subrange(i5, i6));
}

/// Writing a pattern for the value it stands for yields the pattern back.
pub proof fn lemma_i32_round_trip_rev(x: u32)
    ensures
        i32_to_u32(u32_to_i32(x)) == x,
{
}

/// Writes the blob bytes of a record. The public `encode` rejects
/// ill-shaped records first: their blobs would never decode.
fn encode_raw(s: &Sequence) -> (r: Vec<u8>)
    ensures
        r@ == spec_encode(s@),
{
    let mut out: Vec<u8> = Vec::new();
    out.push(WIRE_VERSION);
    push_u32(&mut out, i32_bits(s.index));
    push_u32(&mut out, i32_bits(s.anomaly));
    push_u32(&mut out, i32_bits(s.failure));
    if s.unseen {
        out.push(1u8);
    } else {
        out.push(0u8);
    }
    push_frame(&mut out, &s.sequence);
    push_frame(&mut out, &s.saliency);
    proof {
        assert(out@ =~= spec_encode(s@));
    }
    out
}

/// Encodes a record to its blob. Succeeds exactly on well-formed records;
/// an ill-shaped record (ragged frame, or payload frames of unequal shape)
/// is reported, never silently mangled.
pub fn encode(s: &Sequence) -> (r: Result<Vec<u8>, BufferError>)
    ensures
        s@.wf() ==> (r matches Ok(b) && b@ == spec_encode(s@)),
        !s@.wf() ==> r == Err::<Vec<u8>, BufferError>(BufferError::EncodingError),
{
    if s.is_wf() {
        Ok(encode_raw(s))
    } else {
        Err(BufferError::EncodingError)
    }
}

/// Prepends already-read cells to the outcome of parsing the remaining run.
pub open spec fn vals_prepend(acc: Seq<u64>, r: Option<(Seq<u64>, int)>) -> Option<
    (Seq<u64>, int),
> {
    match r {
        None => None,
        Some((vs, e)) => Some((acc + vs, e)),
    }
}

/// Prepends already-read columns to the outcome of parsing the remaining
/// run.
pub open spec fn cols_prepend(acc: Seq<ColModel>, r: Option<(Seq<ColModel>, int)>) -> Option<
    (Seq<ColModel>, int),
> {
    match r {
        None => None,
        Some((cs, e)) => Some((acc + cs, e)),
    }
}

/// Reads one byte at `i`.
fn read_byte(b: &Vec<u8>, i: usize) -> (r: Option<(u8, usize)>)
    ensures
        match r {
            Some((v, j)) => take_byte(b@, i as int) == Some((v, j as int)),
            None => take_byte(b@, i as int) is None,
        },
{
    if i < b.len() {
        Some((b[i], i + 1))
    } else {
        None
    }
}

/// Reads four little-endian bytes at `i`.
fn read_u32(b: &Vec<u8>, i: usize) -> (r: Option<(u32, usize)>)
    ensures
        match r {
            Some((v, j)) => take_u32(b@, i as int) == Some((v, j as int)),
            None => take_u32(b@, i as int) is None,
        },
{
    if i <= b.len() && b.len() - i >= 4 {
        let v = u32_from_le_bytes(vstd::slice::slice_subrange(b.as_slice(), i, i + 4));
        Some((v, i + 4))
    } else {
        None
    }
}

/// Reads eight little-endian bytes at `i`.
fn read_u64(b: &Vec<u8>, i: usize) -> (r: Option<(u64, usize)>)
    ensures
        match r {
            Some((v, j)) => take_u64(b@, i as int) == Some((v, j as int)),
            None => take_u64(b@, i as int) is None,
        },
{
    if i <= b.len() && b.len() - i >= 8 {
        let v = u64_from_le_bytes(vstd::slice::slice_subrange(b.as_slice(), i, i + 8));
        Some((v, i + 8))
    } else {
        None
    }
}

/// Reads a length-prefixed run of raw bytes at `i`.
fn read_name(b: &Vec<u8>, i: usize) -> (r: Option<(Vec<u8>, usize)>)
    ensures
        match r {
            Some((v, j)) => take_name(b@, i as int) == Some((v@, j as int)),
            None => take_name(b@, i as int) is None,
        },
{
    match read_u64(b, i) {
        None => None,
        Some((n, j)) => {
            if n <= (b.len() - j) as u64 {
                let len = n as usize;
                proof {
                    assert(b@.len() == vstd::std_specs::vec::spec_vec_len(b));
                }
                let mut out: Vec<u8> = Vec::new();
                let mut k: usize = 0;
                while k < len
                    invariant
                        0 <= k <= len,
                        j + len <= b@.len() <= usize::MAX,
                        out@ == b@.subrange(j as int, j as int + k as int),
                    decreases len - k,
                {
                    out.push(b[j + k]);
                    proof {
                        assert(b@.subrange(j as int, j as int + k as int).push(
                            b@[j as int + k as int],
                        ) =~= b@.subrange(j as int, j as int + k as int + 1));
                    }
                    k = k + 1;
                }
                Some((out, j + len))
            } else {
                None
            }
        },
    }
}

/// Reads `n` cells at `i`.
fn read_vals(b: &Vec<u8>, i: usize, n: u64) -> (r: Option<(Vec<u64>, usize)>)
    ensures
        match r {
            Some((v, j)) => take_vals(b@, i as int, n as int) == Some((v@, j as int)),
            None => take_vals(b@, i as int, n as int) is None,
        },
{
    let mut acc: Vec<u64> = Vec::new();
    let mut cur: usize = i;
    let mut k: u64 = 0;
    while k < n
        invariant
            0 <= k <= n,
            take_vals(b@, i as int, n as int) == vals_prepend(
                acc@,
                take_vals(b@, cur as int, n as int - k as int),
            ),
        decreases n - k,
    {
        match read_u64(b, cur) {
            None => {
                return None;
            },
            Some((v, j)) => {
                proof {
                    let rest = take_vals(b@, j as int, n as int - k as int - 1);
                    if rest is Some {
                        let (vs, e) = rest.unwrap();
                        assert(acc@ + (seq![v] + vs) =~= acc@.push(v) + vs);
                    }
                }
                acc.push(v);
                cur = j;
                k = k + 1;
            },
        }
    }
    proof {
        assert(acc@ + Seq::<u64>::empty() =~= acc@);
    }
    Some((acc, cur))
}

/// Reads one column at `i`.
fn read_col(b: &Vec<u8>, i: usize) -> (r: Option<(Column, usize)>)
    ensures
        match r {
            Some((c, j)) => take_col(b@, i as int) == Some((c@, j as int)),
            None => take_col(b@, i as int) is None,
        },
{
    match read_name(b, i) {
        None => None,
        Some((nm, j)) => match read_u64(b, j) {
            None => None,
            Some((cnt, k)) => match read_vals(b, k, cnt) {
                None => None,
                Some((vs, e)) => Some((Column { name: nm, values: vs }, e)),
            },
        },
    }
}

/// Reads one frame at `i`.
fn read_frame(b: &Vec<u8>, i: usize) -> (r: Option<(Frame, usize)>)
    ensures
        match r {
            Some((f, j)) => take_frame(b@, i as int) == Some((f@, j as int)),
            None => take_frame(b@, i as int) is None,
        },
{
    match read_u64(b, i) {
        None => None,
        Some((n, j)) => {
            let mut acc: Vec<Column> = Vec::new();
            let mut cur: usize = j;
            let mut k: u64 = 0;
            while k < n
                invariant
                    0 <= k <= n,
                    take_u64(b@, i as int) == Some((n, j as int)),
                    take_cols(b@, j as int, n as int) == cols_prepend(
                        acc@.map_values(|c: Column| c@),
                        take_cols(b@, cur as int, n as int - k as int),
                    ),
                decreases n - k,
            {
                match read_col(b, cur) {
                    None => {
                        proof {
                            assert(take_cols(b@, cur as int, n as int - k as int) is None);
                            assert(take_cols(b@, j as int, n as int) is None);
                        }
                        return None;
                    },
                    Some((c, j2)) => {
                        proof {
                            let ghost_acc = acc@.map_values(|cc: Column| cc@);
                            let rest = take_cols(b@, j2 as int, n as int - k as int - 1);
                            assert(acc@.push(c).map_values(|cc: Column| cc@) =~= ghost_acc.push(
                                c@,
                            ));
                            if rest is Some {
                                let (cs, e) = rest.unwrap();
                                assert(ghost_acc + (seq![c@] + cs) =~= ghost_acc.push(c@) + cs);
                            }
                        }
                        acc.push(c);
                        cur = j2;
                        k = k + 1;
                    },
                }
            }
            proof {
                assert(acc@.map_values(|c: Column| c@) + Seq::<ColModel>::empty()
                    =~= acc@.map_values(|c: Column| c@));
            }
            Some((Frame { columns: acc }, cur))
        },
    }
}

/// Decodes a blob back to the record it encodes. Succeeds exactly when the
/// blob parses under the layout above with no trailing bytes and yields a
/// well-formed record; any malformed, truncated, or ill-shaped blob is
/// reported as a decode failure.
pub fn decode(b: &Vec<u8>) -> (r: Result<Sequence, BufferError>)
    ensures
        match r {
            Ok(s) => spec_decode(b@) == Some(s@),
            Err(e) => spec_decode(b@) is None && e == BufferError::DecodingError,
        },
{
    let err = Err::<Sequence, BufferError>(BufferError::DecodingError);
    match read_byte(b, 0) {
        None => err,
        Some((ver, i0)) => {
            if ver != WIRE_VERSION {
                return err;
            }
            match read_u32(b, i0) {
                None => err,
                Some((ix, i1)) => match read_u32(b, i1) {
                    None => err,
                    Some((an, i2)) => match read_u32(b, i2) {
                        None => err,
                        Some((fl, i3)) => match read_byte(b, i3) {
                            None => err,
                            Some((un, i4)) => {
                                if un != 0 && un != 1 {
                                    return err;
                                }
                                match read_frame(b, i4) {
                                    None => err,
                                    Some((sq, i5)) => match read_frame(b, i5) {
                                        None => err,
                                        Some((sl, i6)) => {
                                            let s = Sequence {
                                                index: bits_i32(ix),
                                                sequence: sq,
                                                anomaly: bits_i32(an),
                                                saliency: sl,
                                                failure: bits_i32(fl),
                                                unseen: un == 1,
                                            };
                                            if i6 == b.len() && s.is_wf() {
                                                Ok(s)
                                            } else {
                                                err
                                            }
                                        },
                                    },
                                }
                            },
                        },
                    },
                },
            }
        },
    }
}

/// Decodes a blob, reporting failure as an absent value; the per-element
/// step of a batched range read.
pub fn decode_blob(b: &Vec<u8>) -> (r: Option<Sequence>)
    ensures
        match r {
            Some(s) => spec_decode(b@) == Some(s@),
            None => spec_decode(b@) is None,
        },
{
    match decode(b) {
        Ok(s) => Some(s),
        Err(_) => None,
    }
}

} // verus!
