//! The calldata codec: standard Ethereum ABI encoding and decoding of
//! `batchX(address[] targets, uint256[] values, bytes[] calldatas, bool)`,
//! together with the four-byte selector dispatch.
//!
//! The byte layout is given by spec functions (`enc_call`, `spec_decode`);
//! the executable encoder and decoder are proved to compute exactly those
//! functions, and decoding an encoded call is proved to give the call back.

use vstd::prelude::*;
use crate::types::{
    copy_bytes, spec_word_of_u64, word_bytes_of_u64, Address, BatchInput, Mode, Word,
};

verus! {

/// The mathematical form of a decoded batch call: raw byte sequences in
/// place of the executable types.
pub ghost struct AbiBatch {
    /// 20-byte target addresses.
    pub targets: Seq<Seq<u8>>,
    /// 32-byte big-endian transfer values.
    pub values: Seq<Seq<u8>>,
    /// Arbitrary calldata for each sub-call.
    pub calldatas: Seq<Seq<u8>>,
    pub flag: bool,
}

pub open spec fn wf_model(x: AbiBatch) -> bool {
    &&& forall|i: int| 0 <= i < x.targets.len() ==> (#[trigger] x.targets[i]).len() == 20
    &&& forall|i: int| 0 <= i < x.values.len() ==> (#[trigger] x.values[i]).len() == 32
}

/// The mathematical view of a decoded input record.
pub open spec fn model_of(input: BatchInput) -> AbiBatch {
    AbiBatch {
        targets: Seq::new(input.targets@.len(), |i: int| input.targets@[i].bytes@),
        values: Seq::new(input.values@.len(), |i: int| input.values@[i].bytes@),
        calldatas: Seq::new(input.calldatas@.len(), |i: int| input.calldatas@[i]@),
        flag: input.flag,
    }
}

pub open spec fn zeros(n: int) -> Seq<u8> {
    Seq::new(n as nat, |i: int| 0u8)
}

/// Length of `n` bytes padded up to a multiple of 32.
pub open spec fn pad_len(n: int) -> int {
    n + ((32 - n % 32) % 32)
}

/// The four selector bytes of `mode`, big-endian.
pub open spec fn selector_seq(mode: Mode) -> Seq<u8> {
    match mode {
        Mode::BatchSome => seq![0x3du8, 0x66u8, 0x21u8, 0x52u8],
        Mode::BatchSomeUntilFailure => seq![0x31u8, 0x0au8, 0x02u8, 0x80u8],
        Mode::BatchAll => seq![0x9cu8, 0xb8u8, 0x9au8, 0xf4u8],
    }
}

/// `address[]` tail: each element in the low 20 bytes of a 32-byte slot.
pub open spec fn enc_addr_items(ts: Seq<Seq<u8>>) -> Seq<u8>
    decreases ts.len(),
{
    if ts.len() == 0 {
        Seq::empty()
    } else {
        enc_addr_items(ts.drop_last()) + zeros(12) + ts.last()
    }
}

/// `uint256[]` tail: each element as one 32-byte slot.
pub open spec fn enc_word_items(vs: Seq<Seq<u8>>) -> Seq<u8>
    decreases vs.len(),
{
    if vs.len() == 0 {
        Seq::empty()
    } else {
        enc_word_items(vs.drop_last()) + vs.last()
    }
}

/// One `bytes` element: its length word, its bytes, and zero padding up to
/// a slot boundary.
pub open spec fn enc_bytes_item(b: Seq<u8>) -> Seq<u8> {
    spec_word_of_u64(b.len() as u64) + b + zeros(pad_len(b.len() as int) - b.len())
}

pub open spec fn enc_bytes_items(cs: Seq<Seq<u8>>) -> Seq<u8>
    decreases cs.len(),
{
    if cs.len() == 0 {
        Seq::empty()
    } else {
        enc_bytes_items(cs.drop_last()) + enc_bytes_item(cs.last())
    }
}

/// Offset of element `i` of a `bytes[]` tail, relative to the end of the
/// array's length word: past the offset table and the preceding elements.
pub open spec fn bytes_item_offset(cs: Seq<Seq<u8>>, i: int) -> int {
    32 * (cs.len() as int) + (enc_bytes_items(cs.subrange(0, i)).len() as int)
}

/// The offset table of the first `k` elements of a `bytes[]` tail.
pub open spec fn enc_bytes_heads(cs: Seq<Seq<u8>>, k: int) -> Seq<u8>
    decreases k,
{
    if k <= 0 {
        Seq::empty()
    } else {
        enc_bytes_heads(cs, k - 1) + spec_word_of_u64(bytes_item_offset(cs, k - 1) as u64)
    }
}

pub open spec fn enc_addr_array(ts: Seq<Seq<u8>>) -> Seq<u8> {
    spec_word_of_u64(ts.len() as u64) + enc_addr_items(ts)
}

pub open spec fn enc_word_array(vs: Seq<Seq<u8>>) -> Seq<u8> {
    spec_word_of_u64(vs.len() as u64) + enc_word_items(vs)
}

pub open spec fn enc_bytes_array(cs: Seq<Seq<u8>>) -> Seq<u8> {
    spec_word_of_u64(cs.len() as u64) + enc_bytes_heads(cs, cs.len() as int) + enc_bytes_items(
        cs,
    )
}

pub open spec fn bool_word(b: bool) -> Seq<u8> {
    spec_word_of_u64(if b { 1u64 } else { 0u64 })
}

/// Offset of the `uint256[]` tail within the argument bytes.
pub open spec fn values_offset(x: AbiBatch) -> int {
    128 + 32 + 32 * (x.targets.len() as int)
}

/// Offset of the `bytes[]` tail within the argument bytes.
pub open spec fn calldatas_offset(x: AbiBatch) -> int {
    values_offset(x) + 32 + 32 * (x.values.len() as int)
}

/// The ABI encoding of the argument tuple: a four-word head (three tail
/// offsets and the flag), then the three array tails.
pub open spec fn enc_args(x: AbiBatch) -> Seq<u8> {
    spec_word_of_u64(128) + spec_word_of_u64(values_offset(x) as u64) + spec_word_of_u64(
        calldatas_offset(x) as u64,
    ) + bool_word(x.flag) + enc_addr_array(x.targets) + enc_word_array(x.values)
        + enc_bytes_array(x.calldatas)
}

/// The full calldata of a batch call: selector, then arguments.
pub open spec fn enc_call(mode: Mode, x: AbiBatch) -> Seq<u8> {
    selector_seq(mode) + enc_args(x)
}

pub proof fn lemma_addr_items_snoc(ts: Seq<Seq<u8>>, i: int)
    requires
        0 <= i < ts.len(),
    ensures
        enc_addr_items(ts.subrange(0, i + 1)) == enc_addr_items(ts.subrange(0, i)) + zeros(12)
            + ts[i],
{
    assert(ts.subrange(0, i + 1).drop_last() =~= ts.subrange(0, i));
}

pub proof fn lemma_word_items_snoc(vs: Seq<Seq<u8>>, i: int)
    requires
        0 <= i < vs.len(),
    ensures
        enc_word_items(vs.subrange(0, i + 1)) == enc_word_items(vs.subrange(0, i)) + vs[i],
{
    assert(vs.subrange(0, i + 1).drop_last() =~= vs.subrange(0, i));
}

pub proof fn lemma_bytes_items_snoc(cs: Seq<Seq<u8>>, i: int)
    requires
        0 <= i < cs.len(),
    ensures
        enc_bytes_items(cs.subrange(0, i + 1)) == enc_bytes_items(cs.subrange(0, i))
            + enc_bytes_item(cs[i]),
{
    assert(cs.subrange(0, i + 1).drop_last() =~= cs.subrange(0, i));
}

pub proof fn lemma_addr_items_len(ts: Seq<Seq<u8>>)
    requires
        forall|i: int| 0 <= i < ts.len() ==> (#[trigger] ts[i]).len() == 20,
    ensures
        enc_addr_items(ts).len() == 32 * ts.len(),
    decreases ts.len(),
{
    if ts.len() > 0 {
        lemma_addr_items_len(ts.drop_last());
    }
}

pub proof fn lemma_word_items_len(vs: Seq<Seq<u8>>)
    requires
        forall|i: int| 0 <= i < vs.len() ==> (#[trigger] vs[i]).len() == 32,
    ensures
        enc_word_items(vs).len() == 32 * vs.len(),
    decreases vs.len(),
{
    if vs.len() > 0 {
        lemma_word_items_len(vs.drop_last());
    }
}

pub proof fn lemma_bytes_heads_len(cs: Seq<Seq<u8>>, k: int)
    requires
        k >= 0,
    ensures
        enc_bytes_heads(cs, k).len() == 32 * k,
    decreases k,
{
    if k > 0 {
        lemma_bytes_heads_len(cs, k - 1);
    }
}

/// Each `bytes` element occupies its length word plus its padded bytes.
pub proof fn lemma_bytes_item_len(b: Seq<u8>)
    ensures
        enc_bytes_item(b).len() == 32 + pad_len(b.len() as int),
        pad_len(b.len() as int) >= b.len(),
        pad_len(b.len() as int) < b.len() + 32,
{
}

/// The encoding of a prefix never outgrows the encoding of the whole.
pub proof fn lemma_bytes_items_prefix_le(cs: Seq<Seq<u8>>, i: int)
    requires
        0 <= i <= cs.len(),
    ensures
        enc_bytes_items(cs.subrange(0, i)).len() <= enc_bytes_items(cs).len(),
    decreases cs.len() - i,
{
    if i < cs.len() {
        lemma_bytes_items_snoc(cs, i);
        lemma_bytes_items_prefix_le(cs, i + 1);
    } else {
        assert(cs.subrange(0, i) =~= cs);
    }
}

fn push_word_u64(out: &mut Vec<u8>, n: u64)
    ensures
        final(out)@ == old(out)@ + spec_word_of_u64(n),
{
    let mut w = word_bytes_of_u64(n);
    out.append(&mut w);
}

fn push_slice(out: &mut Vec<u8>, src: &Vec<u8>)
    ensures
        final(out)@ == old(out)@ + src@,
{
    let mut c = copy_bytes(src);
    out.append(&mut c);
}

fn push_zeros(out: &mut Vec<u8>, n: usize)
    ensures
        final(out)@ == old(out)@ + zeros(n as int),
{
    let mut i: usize = 0;
    while i < n
        invariant
            i <= n,
            out@ == old(out)@ + zeros(i as int),
        decreases n - i,
    {
        out.push(0);
        proof {
            assert(out@ =~= old(out)@ + zeros(i + 1));
        }
        i += 1;
    }
}

fn push_selector(out: &mut Vec<u8>, mode: Mode)
    ensures
        final(out)@ == old(out)@ + selector_seq(mode),
{
    match mode {
        Mode::BatchSome => {
            out.push(0x3d);
            out.push(0x66);
            out.push(0x21);
            out.push(0x52);
        },
        Mode::BatchSomeUntilFailure => {
            out.push(0x31);
            out.push(0x0a);
            out.push(0x02);
            out.push(0x80);
        },
        Mode::BatchAll => {
            out.push(0x9c);
            out.push(0xb8);
            out.push(0x9a);
            out.push(0xf4);
        },
    }
    proof {
        assert(final(out)@ =~= old(out)@ + selector_seq(mode));
    }
}

/// Encodes a batch call: the mode's selector followed by the ABI encoding
/// of the argument tuple.  The encoded form must fit comfortably in
/// memory; its length is bounded by the requirement below.
#[verifier::rlimit(50)]
pub fn encode_call(mode: Mode, input: &BatchInput) -> (r: Vec<u8>)
    requires
        input.wf(),
        enc_call(mode, model_of(*input)).len() <= 0x7fffffff,
    ensures
        r@ == enc_call(mode, model_of(*input)),
{
    let ghost x = model_of(*input);
    let nt = input.targets.len();
    let nv = input.values.len();
    let nc = input.calldatas.len();
    proof {
        assert(x.targets.len() == nt && x.values.len() == nv && x.calldatas.len() == nc);
        assert forall|i: int| 0 <= i < x.targets.len() implies (#[trigger] x.targets[i]).len()
            == 20 by {
            assert(input.targets@[i].wf());
        }
        assert forall|i: int| 0 <= i < x.values.len() implies (#[trigger] x.values[i]).len()
            == 32 by {
            assert(input.values@[i].wf());
        }
        lemma_addr_items_len(x.targets);
        lemma_word_items_len(x.values);
        lemma_bytes_heads_len(x.calldatas, nc as int);
    }
    let ghost items_total = enc_bytes_items(x.calldatas).len() as int;
    proof {
        assert(enc_call(mode, x).len() == 4 + 128 + 32 + 32 * (nt as int) + 32 + 32 * (nv
            as int) + 32 + 32 * (nc as int) + items_total);
    }
    let off_v: u64 = 160 + 32 * (nt as u64);
    let off_c: u64 = off_v + 32 + 32 * (nv as u64);
    let mut out: Vec<u8> = Vec::new();
    push_selector(&mut out, mode);
    push_word_u64(&mut out, 128);
    push_word_u64(&mut out, off_v);
    push_word_u64(&mut out, off_c);
    push_word_u64(&mut out, if input.flag { 1 } else { 0 });
    // address[] tail
    push_word_u64(&mut out, nt as u64);
    let ghost addr_base = out@;
    let mut i: usize = 0;
    while i < nt
        invariant
            i <= nt,
            nt == input.targets@.len(),
            input.wf(),
            x == model_of(*input),
            out@ == addr_base + enc_addr_items(x.targets.subrange(0, i as int)),
        decreases nt - i,
    {
        push_zeros(&mut out, 12);
        push_slice(&mut out, &input.targets[i].bytes);
        proof {
            lemma_addr_items_snoc(x.targets, i as int);
            assert(out@ =~= addr_base + enc_addr_items(x.targets.subrange(0, i + 1)));
        }
        i += 1;
    }
    proof {
        assert(x.targets.subrange(0, nt as int) =~= x.targets);
    }
    // uint256[] tail
    push_word_u64(&mut out, nv as u64);
    let ghost word_base = out@;
    let mut i: usize = 0;
    while i < nv
        invariant
            i <= nv,
            nv == input.values@.len(),
            input.wf(),
            x == model_of(*input),
            out@ == word_base + enc_word_items(x.values.subrange(0, i as int)),
        decreases nv - i,
    {
        push_slice(&mut out, &input.values[i].bytes);
        proof {
            lemma_word_items_snoc(x.values, i as int);
            assert(out@ =~= word_base + enc_word_items(x.values.subrange(0, i + 1)));
        }
        i += 1;
    }
    proof {
        assert(x.values.subrange(0, nv as int) =~= x.values);
    }
    // bytes[] tail: one pass builds the elements and their offsets, a
    // second writes the offset table, then the elements follow
    push_word_u64(&mut out, nc as u64);
    let mut item_offsets: Vec<u64> = Vec::new();
    let mut items: Vec<u8> = Vec::new();
    let mut i: usize = 0;
    while i < nc
        invariant
            i <= nc,
            nc == input.calldatas@.len(),
            x == model_of(*input),
            items@ == enc_bytes_items(x.calldatas.subrange(0, i as int)),
            item_offsets@.len() == i,
            forall|j: int|
                0 <= j < i ==> (#[trigger] item_offsets@[j]) == bytes_item_offset(
                    x.calldatas,
                    j,
                ) as u64,
            forall|j: int|
                0 <= j < i ==> 0 <= #[trigger] bytes_item_offset(x.calldatas, j)
                    <= 0xffffffff,
            32 * (nc as int) + (enc_bytes_items(x.calldatas).len() as int) <= 0x7fffffff,
        decreases nc - i,
    {
        proof {
            lemma_bytes_items_prefix_le(x.calldatas, i as int);
        }
        let off: u64 = 32 * (nc as u64) + (items.len() as u64);
        proof {
            assert(off == bytes_item_offset(x.calldatas, i as int));
        }
        item_offsets.push(off);
        let blen = input.calldatas[i].len();
        proof {
            assert(x.calldatas[i as int] == input.calldatas@[i as int]@);
        }
        push_word_u64(&mut items, blen as u64);
        push_slice(&mut items, &input.calldatas[i]);
        let rem = blen % 32;
        let pad = if rem == 0 {
            0
        } else {
            32 - rem
        };
        push_zeros(&mut items, pad);
        proof {
            lemma_bytes_items_snoc(x.calldatas, i as int);
            assert(pad == pad_len(x.calldatas[i as int].len() as int) - x.calldatas[i
                as int].len());
            assert(items@ =~= enc_bytes_items(x.calldatas.subrange(0, i + 1)));
        }
        i += 1;
    }
    proof {
        assert(x.calldatas.subrange(0, nc as int) =~= x.calldatas);
    }
    let ghost heads_base = out@;
    let mut i: usize = 0;
    while i < nc
        invariant
            i <= nc,
            nc == input.calldatas@.len(),
            x == model_of(*input),
            item_offsets@.len() == nc,
            forall|j: int|
                0 <= j < nc ==> (#[trigger] item_offsets@[j]) == bytes_item_offset(
                    x.calldatas,
                    j,
                ) as u64,
            out@ == heads_base + enc_bytes_heads(x.calldatas, i as int),
        decreases nc - i,
    {
        push_word_u64(&mut out, item_offsets[i]);
        proof {
            assert(out@ =~= heads_base + enc_bytes_heads(x.calldatas, i + 1));
        }
        i += 1;
    }
    let mut items_tail = items;
    out.append(&mut items_tail);
    proof {
        assert(out@ =~= enc_call(mode, x));
    }
    out
}

/// Why calldata was rejected.
#[derive(Clone, Copy, PartialEq, Eq, Structural, Debug)]
pub enum DecodeError {
    /// The leading four bytes name no batch mode.
    UnknownSelector,
    /// The bytes after the selector are not a well-formed ABI encoding of
    /// the argument tuple.
    AbiDecode,
}

/// Big-endian value of the eight bytes at `p`.
pub open spec fn be8_val(s: Seq<u8>, p: int) -> u64 {
    ((s[p] as u64) << 56u64) | ((s[p + 1] as u64) << 48u64) | ((s[p + 2] as u64) << 40u64)
        | ((s[p + 3] as u64) << 32u64) | ((s[p + 4] as u64) << 24u64) | ((s[p + 5] as u64)
        << 16u64) | ((s[p + 6] as u64) << 8u64) | (s[p + 7] as u64)
}

/// Reads the 32-byte word at `pos` as an unsigned number, if it is in
/// bounds and fits 64 bits (its high 24 bytes are zero).
pub open spec fn read_word_u64(s: Seq<u8>, pos: int) -> Option<u64> {
    if pos < 0 || pos + 32 > s.len() {
        Option::None
    } else if exists|i: int| pos <= i < pos + 24 && #[trigger] s[i] != 0 {
        Option::None
    } else {
        Option::Some(be8_val(s, pos + 24))
    }
}

/// Reads the 32-byte word at `pos` as a boolean: any non-zero byte counts
/// as true.
pub open spec fn read_bool_word(s: Seq<u8>, pos: int) -> Option<bool> {
    if pos < 0 || pos + 32 > s.len() {
        Option::None
    } else {
        Option::Some(exists|i: int| pos <= i < pos + 32 && #[trigger] s[i] != 0)
    }
}

/// Decodes an `address[]` tail at `off`: a length word, then one 32-byte
/// slot per element whose low 20 bytes are the address.
pub open spec fn dec_addr_array(args: Seq<u8>, off: int) -> Option<Seq<Seq<u8>>> {
    match read_word_u64(args, off) {
        Option::None => Option::None,
        Option::Some(n) => if off + 32 + 32 * (n as int) > args.len() {
            Option::None
        } else {
            Option::Some(
                Seq::new(
                    n as nat,
                    |i: int| args.subrange(off + 32 + 32 * i + 12, off + 32 + 32 * i + 32),
                ),
            )
        },
    }
}

/// Decodes a `uint256[]` tail at `off`.
pub open spec fn dec_word_array(args: Seq<u8>, off: int) -> Option<Seq<Seq<u8>>> {
    match read_word_u64(args, off) {
        Option::None => Option::None,
        Option::Some(n) => if off + 32 + 32 * (n as int) > args.len() {
            Option::None
        } else {
            Option::Some(
                Seq::new(
                    n as nat,
                    |i: int| args.subrange(off + 32 + 32 * i, off + 32 + 32 * i + 32),
                ),
            )
        },
    }
}

/// Decodes element `i` of a `bytes[]` tail whose offset table starts at
/// `base`: its table entry points at a length word followed by the bytes.
pub open spec fn bytes_item_at(args: Seq<u8>, base: int, i: int) -> Option<Seq<u8>> {
    match read_word_u64(args, base + 32 * i) {
        Option::None => Option::None,
        Option::Some(rel) => {
            let p = base + rel as int;
            match read_word_u64(args, p) {
                Option::None => Option::None,
                Option::Some(blen) => if p + 32 + (blen as int) > args.len() {
                    Option::None
                } else {
                    Option::Some(args.subrange(p + 32, p + 32 + blen as int))
                },
            }
        },
    }
}

/// Decodes a `bytes[]` tail at `off`.
pub open spec fn dec_bytes_array(args: Seq<u8>, off: int) -> Option<Seq<Seq<u8>>> {
    match read_word_u64(args, off) {
        Option::None => Option::None,
        Option::Some(n) => if forall|i: int|
            0 <= i < n as int ==> (#[trigger] bytes_item_at(args, off + 32, i)) is Some {
            Option::Some(
                Seq::new(n as nat, |i: int| bytes_item_at(args, off + 32, i).unwrap()),
            )
        } else {
            Option::None
        },
    }
}

/// Decodes the argument tuple: three tail offsets and the flag in the
/// four-word head, then the three arrays at their offsets.
pub open spec fn spec_decode_args(args: Seq<u8>) -> Option<AbiBatch> {
    let ot = read_word_u64(args, 0);
    let ov = read_word_u64(args, 32);
    let oc = read_word_u64(args, 64);
    let fl = read_bool_word(args, 96);
    if ot is None || ov is None || oc is None || fl is None {
        Option::None
    } else {
        let ts = dec_addr_array(args, ot.unwrap() as int);
        let vs = dec_word_array(args, ov.unwrap() as int);
        let cs = dec_bytes_array(args, oc.unwrap() as int);
        if ts is None || vs is None || cs is None {
            Option::None
        } else {
            Option::Some(
                AbiBatch {
                    targets: ts.unwrap(),
                    values: vs.unwrap(),
                    calldatas: cs.unwrap(),
                    flag: fl.unwrap(),
                },
            )
        }
    }
}

/// The mode whose selector the four bytes are, if any.
pub open spec fn mode_of_selector(s: Seq<u8>) -> Option<Mode> {
    if s == selector_seq(Mode::BatchSome) {
        Option::Some(Mode::BatchSome)
    } else if s == selector_seq(Mode::BatchSomeUntilFailure) {
        Option::Some(Mode::BatchSomeUntilFailure)
    } else if s == selector_seq(Mode::BatchAll) {
        Option::Some(Mode::BatchAll)
    } else {
        Option::None
    }
}

/// Decodes a whole batch call: selector dispatch, then the argument tuple.
pub open spec fn spec_decode(s: Seq<u8>) -> Option<(Mode, AbiBatch)> {
    if s.len() < 4 {
        Option::None
    } else {
        match mode_of_selector(s.subrange(0, 4)) {
            Option::None => Option::None,
            Option::Some(m) => match spec_decode_args(s.skip(4)) {
                Option::None => Option::None,
                Option::Some(x) => Option::Some((m, x)),
            },
        }
    }
}

/// Copies `s[start..end]`.
fn copy_range(s: &Vec<u8>, start: usize, end: usize) -> (r: Vec<u8>)
    requires
        start <= end <= s@.len(),
    ensures
        r@ == s@.subrange(start as int, end as int),
{
    let mut r: Vec<u8> = Vec::new();
    let mut i: usize = start;
    while i < end
        invariant
            start <= i <= end <= s@.len(),
            r@ == s@.subrange(start as int, i as int),
        decreases end - i,
    {
        r.push(s[i]);
        proof {
            assert(r@ =~= s@.subrange(start as int, i + 1));
        }
        i += 1;
    }
    r
}

fn read_word_u64_exec(s: &Vec<u8>, pos: u64) -> (r: Option<u64>)
    ensures
        r == read_word_u64(s@, pos as int),
{
    let len = s.len();
    if pos > u64::MAX - 32 || pos + 32 > len as u64 {
        return None;
    }
    let p = pos as usize;
    let mut i: usize = 0;
    while i < 24
        invariant
            i <= 24,
            p + 32 <= s@.len(),
            s@.len() <= usize::MAX,
            p == pos as int,
            forall|j: int| p <= j < p + i ==> s@[j] == 0,
        decreases 24 - i,
    {
        if s[p + i] != 0 {
            return None;
        }
        i += 1;
    }
    let b0 = s[p + 24] as u64;
    let b1 = s[p + 25] as u64;
    let b2 = s[p + 26] as u64;
    let b3 = s[p + 27] as u64;
    let b4 = s[p + 28] as u64;
    let b5 = s[p + 29] as u64;
    let b6 = s[p + 30] as u64;
    let b7 = s[p + 31] as u64;
    let v = (b0 << 56u64) | (b1 << 48u64) | (b2 << 40u64) | (b3 << 32u64) | (b4 << 24u64)
        | (b5 << 16u64) | (b6 << 8u64) | b7;
    proof {
        assert(v == be8_val(s@, pos as int + 24));
    }
    Some(v)
}

fn read_bool_exec(s: &Vec<u8>, pos: u64) -> (r: Option<bool>)
    ensures
        r == read_bool_word(s@, pos as int),
{
    let len = s.len();
    if pos > u64::MAX - 32 || pos + 32 > len as u64 {
        return None;
    }
    let p = pos as usize;
    let mut i: usize = 0;
    while i < 32
        invariant
            i <= 32,
            p + 32 <= s@.len(),
            s@.len() <= usize::MAX,
            p == pos as int,
            forall|j: int| p <= j < p + i ==> s@[j] == 0,
        decreases 32 - i,
    {
        if s[p + i] != 0 {
            return Some(true);
        }
        i += 1;
    }
    Some(false)
}

fn dec_addr_array_exec(args: &Vec<u8>, off: u64) -> (r: Option<Vec<Address>>)
    ensures
        match r {
            Some(v) => {
                &&& dec_addr_array(args@, off as int) matches Some(m) && addrs_model(v@) == m
                &&& forall|i: int| 0 <= i < v@.len() ==> (#[trigger] v@[i]).wf()
            },
            None => dec_addr_array(args@, off as int) is None,
        },
{
    let n = match read_word_u64_exec(args, off) {
        Some(n) => n,
        None => {
            return None;
        },
    };
    let len = args.len();
    if (off as u128) + 32 + 32 * (n as u128) > len as u128 {
        return None;
    }
    let mut v: Vec<Address> = Vec::new();
    let mut i: u64 = 0;
    while i < n
        invariant
            i <= n,
            (off as int) + 32 + 32 * (n as int) <= args@.len(),
            args@.len() <= usize::MAX,
            v@.len() == i,
            forall|j: int|
                0 <= j < i ==> (#[trigger] v@[j]).bytes@ == args@.subrange(
                    (off as int) + 32 + 32 * j + 12,
                    (off as int) + 32 + 32 * j + 32,
                ),
        decreases n - i,
    {
        let slot = (off + 32 + 32 * i) as usize;
        let bytes = copy_range(args, slot + 12, slot + 32);
        v.push(Address { bytes });
        i += 1;
    }
    proof {
        let m = dec_addr_array(args@, off as int).unwrap();
        assert(addrs_model(v@) =~= m);
    }
    Some(v)
}

fn dec_word_array_exec(args: &Vec<u8>, off: u64) -> (r: Option<Vec<Word>>)
    ensures
        match r {
            Some(v) => {
                &&& dec_word_array(args@, off as int) matches Some(m) && words_model(v@) == m
                &&& forall|i: int| 0 <= i < v@.len() ==> (#[trigger] v@[i]).wf()
            },
            None => dec_word_array(args@, off as int) is None,
        },
{
    let n = match read_word_u64_exec(args, off) {
        Some(n) => n,
        None => {
            return None;
        },
    };
    let len = args.len();
    if (off as u128) + 32 + 32 * (n as u128) > len as u128 {
        return None;
    }
    let mut v: Vec<Word> = Vec::new();
    let mut i: u64 = 0;
    while i < n
        invariant
            i <= n,
            (off as int) + 32 + 32 * (n as int) <= args@.len(),
            args@.len() <= usize::MAX,
            v@.len() == i,
            forall|j: int|
                0 <= j < i ==> (#[trigger] v@[j]).bytes@ == args@.subrange(
                    (off as int) + 32 + 32 * j,
                    (off as int) + 32 + 32 * j + 32,
                ),
        decreases n - i,
    {
        let slot = (off + 32 + 32 * i) as usize;
        let bytes = copy_range(args, slot, slot + 32);
        v.push(Word { bytes });
        i += 1;
    }
    proof {
        let m = dec_word_array(args@, off as int).unwrap();
        assert(words_model(v@) =~= m);
    }
    Some(v)
}

fn dec_bytes_array_exec(args: &Vec<u8>, off: u64) -> (r: Option<Vec<Vec<u8>>>)
    ensures
        match r {
            Some(v) => dec_bytes_array(args@, off as int) matches Some(m) && datas_model(v@)
                == m,
            None => dec_bytes_array(args@, off as int) is None,
        },
{
    let n = match read_word_u64_exec(args, off) {
        Some(n) => n,
        None => {
            return None;
        },
    };
    let len = args.len();
    let ghost base = off as int + 32;
    let mut v: Vec<Vec<u8>> = Vec::new();
    let mut i: u64 = 0;
    while i < n
        invariant
            i <= n,
            base == off as int + 32,
            args@.len() <= usize::MAX,
            len == args@.len(),
            read_word_u64(args@, off as int) == Some(n),
            v@.len() == i,
            forall|j: int|
                0 <= j < i ==> ((#[trigger] bytes_item_at(args@, base, j)) matches Some(b)
                    && v@[j]@ == b),
        decreases n - i,
    {
        if off > u64::MAX - 64 || (i as u128) * 32 > (u64::MAX - off - 64) as u128 {
            // the table entry for this element cannot lie inside the
            // argument bytes
            proof {
                assert(off as int + 32 + 32 * (i as int) + 32 > args@.len());
                assert(bytes_item_at(args@, base, i as int) is None);
            }
            return None;
        }
        let head_pos = off + 32 + 32 * i;
        let rel = match read_word_u64_exec(args, head_pos) {
            Some(rel) => rel,
            None => {
                proof {
                    assert(bytes_item_at(args@, base, i as int) is None);
                }
                return None;
            },
        };
        if rel > u64::MAX - 32 - off {
            proof {
                assert((base + rel as int) + 32 > args@.len());
                assert(bytes_item_at(args@, base, i as int) is None);
            }
            return None;
        }
        let p = off + 32 + rel;
        let blen = match read_word_u64_exec(args, p) {
            Some(blen) => blen,
            None => {
                proof {
                    assert(bytes_item_at(args@, base, i as int) is None);
                }
                return None;
            },
        };
        if (p as u128) + 32 + (blen as u128) > len as u128 {
            proof {
                assert(bytes_item_at(args@, base, i as int) is None);
            }
            return None;
        }
        let start = (p + 32) as usize;
        let item = copy_range(args, start, start + blen as usize);
        proof {
            assert(bytes_item_at(args@, base, i as int) matches Some(b) && item@ == b);
        }
        v.push(item);
        i += 1;
    }
    proof {
        let m = dec_bytes_array(args@, off as int).unwrap();
        assert(datas_model(v@) =~= m);
    }
    Some(v)
}

/// Decodes a whole batch call from calldata: the selector picks the mode,
/// and the remaining bytes must be a well-formed ABI encoding of the
/// argument tuple.  Exactly the calldata whose selector names no mode is
/// rejected as `UnknownSelector`, and exactly the calldata whose argument
/// bytes do not decode is rejected as `AbiDecode`.
pub fn decode_call(data: &Vec<u8>) -> (r: Result<(Mode, BatchInput), DecodeError>)
    ensures
        match r {
            Ok(p) => {
                &&& spec_decode(data@) == Some((p.0, model_of(p.1)))
                &&& p.1.wf()
            },
            Err(e) => {
                &&& spec_decode(data@) is None
                &&& (e == DecodeError::UnknownSelector <==> (data@.len() < 4 || mode_of_selector(
                    data@.subrange(0, 4),
                ) is None))
            },
        },
{
    if data.len() < 4 {
        return Err(DecodeError::UnknownSelector);
    }
    let b0 = data[0];
    let b1 = data[1];
    let b2 = data[2];
    let b3 = data[3];
    let ghost sel = data@.subrange(0, 4);
    proof {
        assert(sel.len() == 4 && sel[0] == b0 && sel[1] == b1 && sel[2] == b2 && sel[3]
            == b3);
    }
    let mode: Mode = if b0 == 0x3d && b1 == 0x66 && b2 == 0x21 && b3 == 0x52 {
        proof {
            assert(sel =~= selector_seq(Mode::BatchSome));
        }
        Mode::BatchSome
    } else if b0 == 0x31 && b1 == 0x0a && b2 == 0x02 && b3 == 0x80 {
        proof {
            assert(sel =~= selector_seq(Mode::BatchSomeUntilFailure));
        }
        Mode::BatchSomeUntilFailure
    } else if b0 == 0x9c && b1 == 0xb8 && b2 == 0x9a && b3 == 0xf4 {
        proof {
            assert(sel =~= selector_seq(Mode::BatchAll));
        }
        Mode::BatchAll
    } else {
        proof {
            assert(mode_of_selector(sel) is None);
        }
        return Err(DecodeError::UnknownSelector);
    };
    let args = copy_range(data, 4, data.len());
    proof {
        assert(args@ =~= data@.skip(4));
    }
    let ot = match read_word_u64_exec(&args, 0) {
        Some(ot) => ot,
        None => {
            return Err(DecodeError::AbiDecode);
        },
    };
    let ov = match read_word_u64_exec(&args, 32) {
        Some(ov) => ov,
        None => {
            return Err(DecodeError::AbiDecode);
        },
    };
    let oc = match read_word_u64_exec(&args, 64) {
        Some(oc) => oc,
        None => {
            return Err(DecodeError::AbiDecode);
        },
    };
    let flag = match read_bool_exec(&args, 96) {
        Some(flag) => flag,
        None => {
            return Err(DecodeError::AbiDecode);
        },
    };
    let targets = match dec_addr_array_exec(&args, ot) {
        Some(targets) => targets,
        None => {
            return Err(DecodeError::AbiDecode);
        },
    };
    let values = match dec_word_array_exec(&args, ov) {
        Some(values) => values,
        None => {
            return Err(DecodeError::AbiDecode);
        },
    };
    let calldatas = match dec_bytes_array_exec(&args, oc) {
        Some(calldatas) => calldatas,
        None => {
            return Err(DecodeError::AbiDecode);
        },
    };
    let input = BatchInput { targets, values, calldatas, flag };
    proof {
        let x = spec_decode_args(data@.skip(4)).unwrap();
        assert(model_of(input).targets =~= x.targets);
        assert(model_of(input).values =~= x.values);
        assert(model_of(input).calldatas =~= x.calldatas);
    }
    Ok((mode, input))
}

/// The mathematical view of a sequence of addresses.
pub open spec fn addrs_model(v: Seq<Address>) -> Seq<Seq<u8>> {
    Seq::new(v.len(), |i: int| v[i].bytes@)
}

/// The mathematical view of a sequence of words.
pub open spec fn words_model(v: Seq<Word>) -> Seq<Seq<u8>> {
    Seq::new(v.len(), |i: int| v[i].bytes@)
}

/// The mathematical view of a sequence of byte strings.
pub open spec fn datas_model(v: Seq<Vec<u8>>) -> Seq<Seq<u8>> {
    Seq::new(v.len(), |i: int| v[i]@)
}

/// Reading back a word that was written by `spec_word_of_u64` gives the
/// number written.
pub proof fn lemma_read_word_of(s: Seq<u8>, pos: int, n: u64)
    requires
        0 <= pos,
        pos + 32 <= s.len(),
        s.subrange(pos, pos + 32) == spec_word_of_u64(n),
    ensures
        read_word_u64(s, pos) == Some(n),
{
    let w = spec_word_of_u64(n);
    assert forall|i: int| pos <= i < pos + 24 implies s[i] == 0 by {
        assert(s[i] == s.subrange(pos, pos + 32)[i - pos]);
    }
    let b0 = (n >> 56u64) & 0xff;
    let b1 = (n >> 48u64) & 0xff;
    let b2 = (n >> 40u64) & 0xff;
    let b3 = (n >> 32u64) & 0xff;
    let b4 = (n >> 24u64) & 0xff;
    let b5 = (n >> 16u64) & 0xff;
    let b6 = (n >> 8u64) & 0xff;
    let b7 = n & 0xff;
    assert(b0 <= 0xff && b1 <= 0xff && b2 <= 0xff && b3 <= 0xff && b4 <= 0xff && b5 <= 0xff
        && b6 <= 0xff && b7 <= 0xff && (n >> 0u64) & 0xff == b7 && n == (b0 << 56u64) | (b1
        << 48u64) | (b2 << 40u64) | (b3 << 32u64) | (b4 << 24u64) | (b5 << 16u64) | (b6
        << 8u64) | b7) by (bit_vector)
        requires
            b0 == (n >> 56u64) & 0xff,
            b1 == (n >> 48u64) & 0xff,
            b2 == (n >> 40u64) & 0xff,
            b3 == (n >> 32u64) & 0xff,
            b4 == (n >> 24u64) & 0xff,
            b5 == (n >> 16u64) & 0xff,
            b6 == (n >> 8u64) & 0xff,
            b7 == n & 0xff,
    ;
    assert forall|k: int| 24 <= k < 32 implies s[pos + k] == w[k] by {
        assert(s[pos + k] == s.subrange(pos, pos + 32)[k]);
    }
    assert(w[24] == (b0 as u8) && w[25] == (b1 as u8) && w[26] == (b2 as u8) && w[27] == (b3
        as u8) && w[28] == (b4 as u8) && w[29] == (b5 as u8) && w[30] == (b6 as u8) && w[31]
        == (b7 as u8));
    assert(be8_val(s, pos + 24) == n);
}

/// Reading back the word a boolean was written as gives the boolean.
pub proof fn lemma_read_bool_of(s: Seq<u8>, pos: int, flag: bool)
    requires
        0 <= pos,
        pos + 32 <= s.len(),
        s.subrange(pos, pos + 32) == bool_word(flag),
    ensures
        read_bool_word(s, pos) == Some(flag),
{
    if flag {
        assert((1u64 >> 0u64) & 0xff == 1) by (bit_vector);
        assert(s[pos + 31] == s.subrange(pos, pos + 32)[31]);
        assert(s[pos + 31] == 1);
    } else {
        assert forall|i: int| pos <= i < pos + 32 implies s[i] == 0 by {
            assert(s[i] == s.subrange(pos, pos + 32)[i - pos]);
            if i - pos >= 24 {
                let sh = ((31 - (i - pos)) * 8) as u64;
                assert((0u64 >> sh) & 0xff == 0) by (bit_vector);
            }
        }
    }
}

/// The encoding of the first `k` addresses is a prefix of the encoding of
/// them all.
pub proof fn lemma_addr_items_prefix(ts: Seq<Seq<u8>>, k: int)
    requires
        0 <= k <= ts.len(),
        forall|i: int| 0 <= i < ts.len() ==> (#[trigger] ts[i]).len() == 20,
    ensures
        enc_addr_items(ts.subrange(0, k)) == enc_addr_items(ts).subrange(0, 32 * k),
    decreases ts.len() - k,
{
    lemma_addr_items_len(ts);
    assert forall|i: int| 0 <= i < k implies (#[trigger] ts.subrange(0, k)[i]).len() == 20 by {}
    lemma_addr_items_len(ts.subrange(0, k));
    if k == ts.len() {
        assert(ts.subrange(0, k) =~= ts);
        assert(enc_addr_items(ts).subrange(0, 32 * k) =~= enc_addr_items(ts));
    } else {
        lemma_addr_items_prefix(ts, k + 1);
        lemma_addr_items_snoc(ts, k);
        assert(enc_addr_items(ts.subrange(0, k)) =~= enc_addr_items(ts).subrange(0, 32 * k));
    }
}

/// Slot `i` of an `address[]` tail holds the `i`th address, padded.
pub proof fn lemma_addr_items_index(ts: Seq<Seq<u8>>, i: int)
    requires
        0 <= i < ts.len(),
        forall|j: int| 0 <= j < ts.len() ==> (#[trigger] ts[j]).len() == 20,
    ensures
        enc_addr_items(ts).subrange(32 * i, 32 * i + 32) == zeros(12) + ts[i],
{
    lemma_addr_items_prefix(ts, i);
    lemma_addr_items_prefix(ts, i + 1);
    lemma_addr_items_snoc(ts, i);
    lemma_addr_items_len(ts);
    assert forall|j: int| 0 <= j < i implies (#[trigger] ts.subrange(0, i)[j]).len() == 20 by {}
    lemma_addr_items_len(ts.subrange(0, i));
    let a = enc_addr_items(ts.subrange(0, i));
    let whole = enc_addr_items(ts);
    let c = enc_addr_items(ts.subrange(0, i + 1));
    assert(c == a + zeros(12) + ts[i]);
    assert(c == whole.subrange(0, 32 * (i + 1)));
    assert forall|j: int| 0 <= j < 32 implies whole[32 * i + j] == (zeros(12) + ts[i])[j] by {
        assert(c[32 * i + j] == whole.subrange(0, 32 * (i + 1))[32 * i + j]);
        assert(c[32 * i + j] == (a + zeros(12) + ts[i])[32 * i + j]);
        if j < 12 {
            assert((a + zeros(12) + ts[i])[32 * i + j] == zeros(12)[j]);
        } else {
            assert((a + zeros(12) + ts[i])[32 * i + j] == ts[i][j - 12]);
        }
    }
    assert(enc_addr_items(ts).subrange(32 * i, 32 * i + 32) =~= zeros(12) + ts[i]);
}

/// The encoding of the first `k` values is a prefix of the encoding of
/// them all.
pub proof fn lemma_word_items_prefix(vs: Seq<Seq<u8>>, k: int)
    requires
        0 <= k <= vs.len(),
        forall|i: int| 0 <= i < vs.len() ==> (#[trigger] vs[i]).len() == 32,
    ensures
        enc_word_items(vs.subrange(0, k)) == enc_word_items(vs).subrange(0, 32 * k),
    decreases vs.len() - k,
{
    lemma_word_items_len(vs);
    assert forall|i: int| 0 <= i < k implies (#[trigger] vs.subrange(0, k)[i]).len() == 32 by {}
    lemma_word_items_len(vs.subrange(0, k));
    if k == vs.len() {
        assert(vs.subrange(0, k) =~= vs);
        assert(enc_word_items(vs).subrange(0, 32 * k) =~= enc_word_items(vs));
    } else {
        lemma_word_items_prefix(vs, k + 1);
        lemma_word_items_snoc(vs, k);
        assert(enc_word_items(vs.subrange(0, k)) =~= enc_word_items(vs).subrange(0, 32 * k));
    }
}

/// Slot `i` of a `uint256[]` tail holds the `i`th value.
pub proof fn lemma_word_items_index(vs: Seq<Seq<u8>>, i: int)
    requires
        0 <= i < vs.len(),
        forall|j: int| 0 <= j < vs.len() ==> (#[trigger] vs[j]).len() == 32,
    ensures
        enc_word_items(vs).subrange(32 * i, 32 * i + 32) == vs[i],
{
    lemma_word_items_prefix(vs, i);
    lemma_word_items_prefix(vs, i + 1);
    lemma_word_items_snoc(vs, i);
    lemma_word_items_len(vs);
    assert forall|j: int| 0 <= j < i implies (#[trigger] vs.subrange(0, i)[j]).len() == 32 by {}
    lemma_word_items_len(vs.subrange(0, i));
    let a = enc_word_items(vs.subrange(0, i));
    let whole = enc_word_items(vs);
    let c = enc_word_items(vs.subrange(0, i + 1));
    assert(c == a + vs[i]);
    assert(c == whole.subrange(0, 32 * (i + 1)));
    assert forall|j: int| 0 <= j < 32 implies whole[32 * i + j] == vs[i][j] by {
        assert(c[32 * i + j] == whole.subrange(0, 32 * (i + 1))[32 * i + j]);
        assert(c[32 * i + j] == (a + vs[i])[32 * i + j]);
    }
    assert(enc_word_items(vs).subrange(32 * i, 32 * i + 32) =~= vs[i]);
}

/// Entry `i` of a `bytes[]` offset table is the `i`th element's offset.
pub proof fn lemma_bytes_heads_index(cs: Seq<Seq<u8>>, i: int, m: int)
    requires
        0 <= i < m,
    ensures
        enc_bytes_heads(cs, m).subrange(32 * i, 32 * i + 32) == spec_word_of_u64(
            bytes_item_offset(cs, i) as u64,
        ),
    decreases m,
{
    lemma_bytes_heads_len(cs, m);
    if i == m - 1 {
        lemma_bytes_heads_len(cs, m - 1);
        assert(enc_bytes_heads(cs, m).subrange(32 * i, 32 * i + 32) =~= spec_word_of_u64(
            bytes_item_offset(cs, i) as u64,
        ));
    } else {
        lemma_bytes_heads_index(cs, i, m - 1);
        lemma_bytes_heads_len(cs, m - 1);
        assert(enc_bytes_heads(cs, m).subrange(32 * i, 32 * i + 32) =~= enc_bytes_heads(
            cs,
            m - 1,
        ).subrange(32 * i, 32 * i + 32));
    }
}

/// The encoding of the first `k` byte strings is a prefix of the encoding
/// of them all.
#[verifier::rlimit(50)]
pub proof fn lemma_bytes_items_prefix_eq(cs: Seq<Seq<u8>>, k: int)
    requires
        0 <= k <= cs.len(),
    ensures
        enc_bytes_items(cs.subrange(0, k)) == enc_bytes_items(cs).subrange(
            0,
            enc_bytes_items(cs.subrange(0, k)).len() as int,
        ),
    decreases cs.len() - k,
{
    lemma_bytes_items_prefix_le(cs, k);
    if k == cs.len() {
        assert(cs.subrange(0, k) =~= cs);
        assert(enc_bytes_items(cs).subrange(0, enc_bytes_items(cs).len() as int)
            =~= enc_bytes_items(cs));
    } else {
        lemma_bytes_items_prefix_eq(cs, k + 1);
        lemma_bytes_items_prefix_le(cs, k + 1);
        lemma_bytes_items_snoc(cs, k);
        let a = enc_bytes_items(cs.subrange(0, k));
        let b = enc_bytes_item(cs[k]);
        let whole = enc_bytes_items(cs);
        assert(enc_bytes_items(cs.subrange(0, k + 1)) == a + b);
        assert(a + b == whole.subrange(0, (a + b).len() as int));
        assert forall|j: int| 0 <= j < a.len() implies a[j] == whole[j] by {
            assert(a[j] == (a + b)[j]);
            assert((a + b)[j] == whole.subrange(0, (a + b).len() as int)[j]);
        }
        assert(a =~= whole.subrange(0, a.len() as int));
    }
}

/// The `i`th element's encoding sits at its offset within the items area.
pub proof fn lemma_bytes_items_index(cs: Seq<Seq<u8>>, i: int)
    requires
        0 <= i < cs.len(),
    ensures
        enc_bytes_items(cs).subrange(
            enc_bytes_items(cs.subrange(0, i)).len() as int,
            enc_bytes_items(cs.subrange(0, i)).len() + 32 + pad_len(cs[i].len() as int),
        ) == enc_bytes_item(cs[i]),
{
    lemma_bytes_items_prefix_eq(cs, i);
    lemma_bytes_items_prefix_eq(cs, i + 1);
    lemma_bytes_items_prefix_le(cs, i + 1);
    lemma_bytes_items_snoc(cs, i);
    lemma_bytes_item_len(cs[i]);
    let a = enc_bytes_items(cs.subrange(0, i));
    let b = enc_bytes_item(cs[i]);
    let whole = enc_bytes_items(cs);
    let li = a.len() as int;
    assert(enc_bytes_items(cs.subrange(0, i + 1)) == a + b);
    assert(a + b == whole.subrange(0, li + b.len()));
    assert forall|j: int| 0 <= j < b.len() implies whole[li + j] == b[j] by {
        assert((a + b)[li + j] == b[j]);
        assert((a + b)[li + j] == whole.subrange(0, li + b.len())[li + j]);
    }
    assert(whole.subrange(li, li + 32 + pad_len(cs[i].len() as int)) =~= b);
}

proof fn lemma_dec_addrs_of_enc(x: AbiBatch)
    requires
        wf_model(x),
        enc_args(x).len() <= 0x7fffffff,
    ensures
        dec_addr_array(enc_args(x), 128) matches Some(m) && m == x.targets,
{
    let args = enc_args(x);
    let nt = x.targets.len() as int;
    lemma_addr_items_len(x.targets);
    lemma_word_items_len(x.values);
    lemma_bytes_heads_len(x.calldatas, x.calldatas.len() as int);
    assert(args.subrange(128, 160) =~= spec_word_of_u64(nt as u64));
    lemma_read_word_of(args, 128, nt as u64);
    assert(args.subrange(160, 160 + 32 * nt) =~= enc_addr_items(x.targets));
    assert forall|i: int| 0 <= i < nt implies args.subrange(
        128 + 32 + 32 * i + 12,
        128 + 32 + 32 * i + 32,
    ) == x.targets[i] by {
        lemma_addr_items_index(x.targets, i);
        assert(args.subrange(160 + 32 * i, 160 + 32 * i + 32) =~= enc_addr_items(
            x.targets,
        ).subrange(32 * i, 32 * i + 32));
        assert(args.subrange(128 + 32 + 32 * i + 12, 128 + 32 + 32 * i + 32) =~= (zeros(12)
            + x.targets[i]).subrange(12, 32));
        assert((zeros(12) + x.targets[i]).subrange(12, 32) =~= x.targets[i]);
    }
    assert(dec_addr_array(args, 128) matches Some(m) && m =~= x.targets);
}

proof fn lemma_dec_words_of_enc(x: AbiBatch)
    requires
        wf_model(x),
        enc_args(x).len() <= 0x7fffffff,
    ensures
        dec_word_array(enc_args(x), values_offset(x)) matches Some(m) && m == x.values,
{
    let args = enc_args(x);
    let nv = x.values.len() as int;
    let ov = values_offset(x);
    lemma_addr_items_len(x.targets);
    lemma_word_items_len(x.values);
    lemma_bytes_heads_len(x.calldatas, x.calldatas.len() as int);
    assert(args.subrange(ov, ov + 32) =~= spec_word_of_u64(nv as u64));
    lemma_read_word_of(args, ov, nv as u64);
    assert(args.subrange(ov + 32, ov + 32 + 32 * nv) =~= enc_word_items(x.values));
    assert forall|i: int| 0 <= i < nv implies args.subrange(
        ov + 32 + 32 * i,
        ov + 32 + 32 * i + 32,
    ) == x.values[i] by {
        lemma_word_items_index(x.values, i);
        assert(args.subrange(ov + 32 + 32 * i, ov + 32 + 32 * i + 32) =~= enc_word_items(
            x.values,
        ).subrange(32 * i, 32 * i + 32));
    }
    assert(dec_word_array(args, ov) matches Some(m) && m =~= x.values);
}

#[verifier::rlimit(100)]
proof fn lemma_bytes_item_of_enc(x: AbiBatch, i: int)
    requires
        wf_model(x),
        enc_args(x).len() <= 0x7fffffff,
        0 <= i < x.calldatas.len(),
    ensures
        bytes_item_at(enc_args(x), calldatas_offset(x) + 32, i) == Some(x.calldatas[i]),
{
    let args = enc_args(x);
    let nc = x.calldatas.len() as int;
    let oc = calldatas_offset(x);
    let items = enc_bytes_items(x.calldatas);
    let base = oc + 32;
    lemma_addr_items_len(x.targets);
    lemma_word_items_len(x.values);
    lemma_bytes_heads_len(x.calldatas, nc);
    assert(args.subrange(base, base + 32 * nc) =~= enc_bytes_heads(x.calldatas, nc));
    assert(args.subrange(base + 32 * nc, args.len() as int) =~= items);
    lemma_bytes_heads_index(x.calldatas, i, nc);
    lemma_bytes_items_prefix_le(x.calldatas, i);
    lemma_bytes_items_prefix_le(x.calldatas, i + 1);
    lemma_bytes_items_snoc(x.calldatas, i);
    lemma_bytes_item_len(x.calldatas[i]);
    let li = enc_bytes_items(x.calldatas.subrange(0, i)).len() as int;
    let rel = bytes_item_offset(x.calldatas, i);
    assert(rel == 32 * nc + li);
    assert(0 <= rel <= 0x7fffffff);
    assert(args.subrange(base + 32 * i, base + 32 * i + 32) =~= enc_bytes_heads(
        x.calldatas,
        nc,
    ).subrange(32 * i, 32 * i + 32));
    lemma_read_word_of(args, base + 32 * i, rel as u64);
    let p = base + rel;
    let blen = x.calldatas[i].len() as int;
    lemma_bytes_items_index(x.calldatas, i);
    assert(args.subrange(p, p + 32 + pad_len(blen)) =~= items.subrange(li, li + 32 + pad_len(
        blen,
    )));
    assert(args.subrange(p, p + 32 + pad_len(blen)) == enc_bytes_item(x.calldatas[i]));
    assert(args.subrange(p, p + 32) =~= spec_word_of_u64(blen as u64));
    lemma_read_word_of(args, p, blen as u64);
    assert(p + 32 + blen <= args.len());
    assert forall|j: int| 0 <= j < blen implies args[p + 32 + j] == x.calldatas[i][j] by {
        assert(args[p + 32 + j] == args.subrange(p, p + 32 + pad_len(blen))[32 + j]);
        assert(enc_bytes_item(x.calldatas[i])[32 + j] == x.calldatas[i][j]);
    }
    assert(args.subrange(p + 32, p + 32 + blen) =~= x.calldatas[i]);
}

proof fn lemma_dec_bytes_of_enc(x: AbiBatch)
    requires
        wf_model(x),
        enc_args(x).len() <= 0x7fffffff,
    ensures
        dec_bytes_array(enc_args(x), calldatas_offset(x)) matches Some(m) && m
            == x.calldatas,
{
    let args = enc_args(x);
    let nc = x.calldatas.len() as int;
    let oc = calldatas_offset(x);
    lemma_addr_items_len(x.targets);
    lemma_word_items_len(x.values);
    lemma_bytes_heads_len(x.calldatas, nc);
    assert(args.subrange(oc, oc + 32) =~= spec_word_of_u64(nc as u64));
    lemma_read_word_of(args, oc, nc as u64);
    let base = oc + 32;
    assert forall|i: int| 0 <= i < nc implies #[trigger] bytes_item_at(args, base, i)
        == Some(x.calldatas[i]) by {
        lemma_bytes_item_of_enc(x, i);
    }
    assert(dec_bytes_array(args, oc) matches Some(m) && m =~= x.calldatas);
}

/// Decoding an encoded batch call gives exactly the mode and arguments
/// that were encoded: the codec round-trips on every canonical encoding
/// that fits in memory.
#[verifier::rlimit(100)]
pub proof fn lemma_round_trip(mode: Mode, x: AbiBatch)
    requires
        wf_model(x),
        enc_call(mode, x).len() <= 0x7fffffff,
    ensures
        spec_decode(enc_call(mode, x)) == Some((mode, x)),
{
    let s = enc_call(mode, x);
    let args = enc_args(x);
    let ov = values_offset(x);
    let oc = calldatas_offset(x);
    lemma_addr_items_len(x.targets);
    lemma_word_items_len(x.values);
    lemma_bytes_heads_len(x.calldatas, x.calldatas.len() as int);
    // selector dispatch
    assert(s.subrange(0, 4) =~= selector_seq(mode));
    assert(selector_seq(Mode::BatchSome)[0] == 0x3d && selector_seq(
        Mode::BatchSomeUntilFailure,
    )[0] == 0x31 && selector_seq(Mode::BatchAll)[0] == 0x9c);
    assert(mode_of_selector(selector_seq(mode)) == Some(mode));
    assert(s.skip(4) =~= args);
    // head words
    assert(args.subrange(0, 32) =~= spec_word_of_u64(128));
    lemma_read_word_of(args, 0, 128);
    assert(args.subrange(32, 64) =~= spec_word_of_u64(ov as u64));
    lemma_read_word_of(args, 32, ov as u64);
    assert(args.subrange(64, 96) =~= spec_word_of_u64(oc as u64));
    lemma_read_word_of(args, 64, oc as u64);
    assert(args.subrange(96, 128) =~= bool_word(x.flag));
    lemma_read_bool_of(args, 96, x.flag);
    // the three arrays
    lemma_dec_addrs_of_enc(x);
    lemma_dec_words_of_enc(x);
    lemma_dec_bytes_of_enc(x);
    assert(spec_decode_args(args) == Some(x));
    assert(spec_decode(s) == Some((mode, x)));
}

} // verus!
