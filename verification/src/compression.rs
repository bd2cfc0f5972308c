//! Unpacking the bytes of one tile.

use vstd::prelude::*;
use vstd::slice::{slice_subrange, slice_to_vec};
use weezl::decode::Decoder;
use weezl::{BitOrder, LzwError, LzwStatus};
use crate::error::{outcome, ErrorView, TiffParserError};

verus! {

/// `weezl::decode::Decoder`, the state of an LZW decoder. Nothing inside
/// it is looked at; what it does is told by [`lzw_fed`] and [`lzw_step`].
#[verifier::external_type_specification]
#[verifier::external_body]
pub struct ExDecoder(Decoder);

/// The compression code of data stored as it is.
pub const COMPRESSION_NONE: u16 = 1;

/// The compression code of LZW data.
pub const COMPRESSION_LZW: u16 = 5;

/// Something that turns the stored bytes of a tile into its pixels' bytes.
pub trait Decompressor {
    /// What `decompress` gives for these bytes and this target size.
    spec fn unpacked(&self, bytes: Seq<u8>, size: nat) -> Result<Seq<u8>, ErrorView>;

    /// Unpacks `bytes` into exactly `size` bytes.
    fn decompress(&mut self, bytes: &[u8], size: usize) -> (r: Result<Vec<u8>, TiffParserError>)
        ensures
            outcome(r) == old(self).unpacked(bytes@, size as nat),
            r matches Ok(unpacked) ==> unpacked@.len() == size,
    ;
}

/// What data stored as it is unpacks to: its first `size` bytes.
pub open spec fn stored(bytes: Seq<u8>, size: nat) -> Result<Seq<u8>, ErrorView> {
    if size <= bytes.len() {
        Ok(bytes.subrange(0, size as int))
    } else {
        Err(ErrorView::TryFromSlice)
    }
}

/// The decompressor for data stored as it is.
pub struct DummyDecompressor;

impl Decompressor for DummyDecompressor {
    open spec fn unpacked(&self, bytes: Seq<u8>, size: nat) -> Result<Seq<u8>, ErrorView> {
        stored(bytes, size)
    }

    /// The first `size` bytes, unchanged. Fails when there are fewer.
    fn decompress(&mut self, bytes: &[u8], size: usize) -> (r: Result<Vec<u8>, TiffParserError>) {
        if size <= bytes.len() {
            Ok(slice_to_vec(slice_subrange(bytes, 0, size)))
        } else {
            Err(TiffParserError::TryFromSlice)
        }
    }
}

/// How one step of the LZW decoder ended.
pub enum LzwOutcome {
    /// The step went well and more may follow.
    Advanced,
    /// Nothing was read or written and the decoder did not move on.
    NoProgress,
    /// The end marker was reached.
    Done,
    /// The input held a code that the decoder does not know.
    Error(LzwError),
}

/// How one step of the LZW decoder ended, without the outside error value.
pub enum LzwOutcomeView {
    Advanced,
    NoProgress,
    Done,
    Error,
}

impl View for LzwOutcome {
    type V = LzwOutcomeView;

    open spec fn view(&self) -> LzwOutcomeView {
        match self {
            LzwOutcome::Advanced => LzwOutcomeView::Advanced,
            LzwOutcome::NoProgress => LzwOutcomeView::NoProgress,
            LzwOutcome::Done => LzwOutcomeView::Done,
            LzwOutcome::Error(_) => LzwOutcomeView::Error,
        }
    }
}

/// What one step of the LZW decoder reports.
pub struct LzwStep {
    /// How many bytes of the input the step used up.
    pub consumed_in: usize,
    /// How many bytes of the output region the step filled.
    pub consumed_out: usize,
    /// How the step ended.
    pub status: LzwOutcome,
}

/// One step of the LZW decoder, as a value: its report, and the output
/// region as the step left it.
pub struct LzwStepView {
    pub consumed_in: nat,
    pub consumed_out: nat,
    pub status: LzwOutcomeView,
    pub output: Seq<u8>,
}

/// The steps that a decoder has taken since [`LzwDecompressor::new`] made
/// it: for each, the input it was handed and the output region as it stood
/// before the step. A decoder keeps no other state, so two decoders that
/// have taken the same steps go on alike.
pub uninterp spec fn lzw_fed(decoder: Decoder) -> Seq<(Seq<u8>, Seq<u8>)>;

/// What `weezl::decode::Decoder::decode_bytes` gives on input `inp` and
/// output region `out`, called on a TIFF-style decoder for 8-bit symbols,
/// most significant bit first, that has taken the steps `fed`. The
/// decoding itself is not described here: this is only its name.
pub uninterp spec fn lzw_step(fed: Seq<(Seq<u8>, Seq<u8>)>, inp: Seq<u8>, out: Seq<u8>) -> LzwStepView;

/// `weezl::decode::Decoder::with_tiff_size_switch` with most significant
/// bit first and 8-bit symbols: a decoder that has taken no step yet.
#[verifier::external_body]
fn lzw_decoder() -> (decoder: Decoder)
    ensures
        lzw_fed(decoder) == Seq::<(Seq<u8>, Seq<u8>)>::empty(),
{
    Decoder::with_tiff_size_switch(BitOrder::Msb, 8)
}

/// `weezl::decode::Decoder::decode_bytes` on `inp` and on `out` from index
/// `from` on. The step is the one that the decoder's earlier steps and the
/// two buffers determine. It uses up no more input than it was handed and
/// fills no more output than the region has room for; the region keeps its
/// length, and `out` before `from` is not touched.
#[verifier::external_body]
fn lzw_decode_bytes(decoder: &mut Decoder, inp: &[u8], out: &mut Vec<u8>, from: usize) -> (r:
    LzwStep)
    requires
        from <= old(out)@.len(),
    ensures
        (LzwStepView {
            consumed_in: r.consumed_in as nat,
            consumed_out: r.consumed_out as nat,
            status: r.status@,
            output: final(out)@.subrange(from as int, old(out)@.len() as int),
        }) == lzw_step(
            lzw_fed(*old(decoder)),
            inp@,
            old(out)@.subrange(from as int, old(out)@.len() as int),
        ),
        lzw_fed(*final(decoder)) == lzw_fed(*old(decoder)).push(
            (inp@, old(out)@.subrange(from as int, old(out)@.len() as int)),
        ),
        final(out)@.len() == old(out)@.len(),
        final(out)@.subrange(0, from as int) == old(out)@.subrange(0, from as int),
        r.consumed_in <= inp@.len(),
        r.consumed_out <= old(out)@.len() - from,
{
    let result = decoder.decode_bytes(inp, &mut out[from..]);
    LzwStep {
        consumed_in: result.consumed_in,
        consumed_out: result.consumed_out,
        status: match result.status {
            Ok(LzwStatus::Ok) => LzwOutcome::Advanced,
            Ok(LzwStatus::NoProgress) => LzwOutcome::NoProgress,
            Ok(LzwStatus::Done) => LzwOutcome::Done,
            Err(err) => LzwOutcome::Error(err),
        },
    }
}

/// What follows a step of the LZW decoder.
pub enum LzwAction {
    /// Take another step.
    Proceed,
    /// Hand the output out as it stands.
    Finish,
    /// Give up with the decoder's error.
    Fail(LzwError),
}

/// What follows a step, without the outside error value.
pub enum LzwActionView {
    Proceed,
    Finish,
    Fail,
}

impl View for LzwAction {
    type V = LzwActionView;

    open spec fn view(&self) -> LzwActionView {
        match self {
            LzwAction::Proceed => LzwActionView::Proceed,
            LzwAction::Finish => LzwActionView::Finish,
            LzwAction::Fail(_) => LzwActionView::Fail,
        }
    }
}

/// What follows a step that ended with `status`, once `consumed_out` of the
/// `size` bytes asked for are there. A decoder that is done or stuck ends
/// the run. So does a full output, even where the step failed; a failure
/// before that is fatal.
pub open spec fn next_action(status: LzwOutcomeView, consumed_out: nat, size: nat) -> LzwActionView {
    match status {
        LzwOutcomeView::NoProgress | LzwOutcomeView::Done => LzwActionView::Finish,
        LzwOutcomeView::Error => if consumed_out >= size {
            LzwActionView::Finish
        } else {
            LzwActionView::Fail
        },
        LzwOutcomeView::Advanced => if consumed_out >= size {
            LzwActionView::Finish
        } else {
            LzwActionView::Proceed
        },
    }
}

/// Decides what follows a step of the LZW decoder.
pub fn lzw_next(status: LzwOutcome, consumed_out: usize, size: usize) -> (action: LzwAction)
    ensures
        action@ == next_action(status@, consumed_out as nat, size as nat),
{
    match status {
        LzwOutcome::Advanced => if consumed_out >= size {
            LzwAction::Finish
        } else {
            LzwAction::Proceed
        },
        LzwOutcome::NoProgress => LzwAction::Finish,
        LzwOutcome::Done => LzwAction::Finish,
        LzwOutcome::Error(err) => if consumed_out >= size {
            LzwAction::Finish
        } else {
            LzwAction::Fail(err)
        },
    }
}

/// How many steps a run may take: one for every byte of input used up, one
/// for every byte of output filled, one for every code that a step may
/// take from the decoder's own store without doing either, and two to
/// spare. A run that would take more is ended as one whose decoder is
/// stuck.
pub open spec fn lzw_step_limit(len: nat, size: nat) -> nat {
    2 * len + size + 2
}

/// The outcome of a run of at most `steps` steps that starts after the
/// steps `fed`, with `used` bytes of `bytes` used up and `filled` bytes of
/// `out` filled.
pub open spec fn lzw_run(
    fed: Seq<(Seq<u8>, Seq<u8>)>,
    bytes: Seq<u8>,
    out: Seq<u8>,
    used: nat,
    filled: nat,
    steps: nat,
) -> Result<Seq<u8>, ErrorView>
    decreases steps,
{
    if steps == 0 {
        Ok(out)
    } else {
        let inp = bytes.subrange(used as int, bytes.len() as int);
        let region = out.subrange(filled as int, out.len() as int);
        let step = lzw_step(fed, inp, region);
        let next_out = out.subrange(0, filled as int) + step.output;
        match next_action(step.status, filled + step.consumed_out, out.len()) {
            LzwActionView::Finish => Ok(next_out),
            LzwActionView::Fail => Err(ErrorView::Lzw),
            LzwActionView::Proceed => lzw_run(
                fed.push((inp, region)),
                bytes,
                next_out,
                used + step.consumed_in,
                filled + step.consumed_out,
                (steps - 1) as nat,
            ),
        }
    }
}

/// What LZW data unpacks to with a decoder that has taken the steps `fed`:
/// the outcome of a run into `size` zero bytes.
pub open spec fn lzw_unpacked(fed: Seq<(Seq<u8>, Seq<u8>)>, bytes: Seq<u8>, size: nat) -> Result<
    Seq<u8>,
    ErrorView,
> {
    lzw_run(fed, bytes, Seq::new(size, |i: int| 0u8), 0, 0, lzw_step_limit(bytes.len(), size))
}

/// The decompressor for LZW data: a TIFF-style decoder for 8-bit symbols,
/// most significant bit first.
pub struct LzwDecompressor {
    decoder: Decoder,
}

impl LzwDecompressor {
    /// The steps that the decoder has taken so far.
    pub closed spec fn fed(&self) -> Seq<(Seq<u8>, Seq<u8>)> {
        lzw_fed(self.decoder)
    }

    /// A decompressor whose decoder has taken no step yet.
    pub fn new() -> (r: LzwDecompressor)
        ensures
            r.fed() == Seq::<(Seq<u8>, Seq<u8>)>::empty(),
    {
        LzwDecompressor { decoder: lzw_decoder() }
    }
}

impl Decompressor for LzwDecompressor {
    open spec fn unpacked(&self, bytes: Seq<u8>, size: nat) -> Result<Seq<u8>, ErrorView> {
        lzw_unpacked(self.fed(), bytes, size)
    }

    /// Runs the decoder step by step into `size` zero bytes, each step on
    /// the input not yet used up and the output not yet filled, until a
    /// step ends the run.
    fn decompress(&mut self, bytes: &[u8], size: usize) -> (r: Result<Vec<u8>, TiffParserError>) {
        let mut result = vec![0u8; size];
        assert(result@ =~= Seq::new(size as nat, |i: int| 0u8));
        let mut consumed_in: usize = 0;
        let mut consumed_out: usize = 0;
        let mut steps: u128 = 2 * (bytes.len() as u128) + (size as u128) + 2;
        while steps > 0
            invariant
                consumed_in <= bytes@.len(),
                consumed_out <= size,
                result@.len() == size,
                lzw_run(
                    self.fed(),
                    bytes@,
                    result@,
                    consumed_in as nat,
                    consumed_out as nat,
                    steps as nat,
                ) == old(self).unpacked(bytes@, size as nat),
            decreases steps,
        {
            let ghost before = result@;
            let ghost filled = consumed_out;
            let inp = slice_subrange(bytes, consumed_in, bytes.len());
            let step = lzw_decode_bytes(&mut self.decoder, inp, &mut result, consumed_out);
            consumed_in = consumed_in + step.consumed_in;
            consumed_out = consumed_out + step.consumed_out;
            assert(result@ == before.subrange(0, filled as int) + result@.subrange(
                filled as int,
                size as int,
            ));
            match lzw_next(step.status, consumed_out, size) {
                LzwAction::Proceed => {},
                LzwAction::Finish => {
                    return Ok(result);
                },
                LzwAction::Fail(err) => {
                    return Err(TiffParserError::Lzw(err));
                },
            }
            steps = steps - 1;
        }
        Ok(result)
    }
}

/// The decompressors that a compression code can select.
pub enum TileDecompressor {
    /// For data stored as it is.
    Stored(DummyDecompressor),
    /// For LZW data.
    Lzw(LzwDecompressor),
}

impl Decompressor for TileDecompressor {
    open spec fn unpacked(&self, bytes: Seq<u8>, size: nat) -> Result<Seq<u8>, ErrorView> {
        match self {
            TileDecompressor::Stored(d) => d.unpacked(bytes, size),
            TileDecompressor::Lzw(d) => d.unpacked(bytes, size),
        }
    }

    fn decompress(&mut self, bytes: &[u8], size: usize) -> (r: Result<Vec<u8>, TiffParserError>) {
        match self {
            TileDecompressor::Stored(d) => d.decompress(bytes, size),
            TileDecompressor::Lzw(d) => d.decompress(bytes, size),
        }
    }
}

/// What a fresh decompressor for `compression` gives for these bytes and
/// this target size; for any code but 1 and 5, that there is none.
pub open spec fn unpacked_by(compression: u16, bytes: Seq<u8>, size: nat) -> Result<
    Seq<u8>,
    ErrorView,
> {
    if compression == COMPRESSION_NONE {
        stored(bytes, size)
    } else if compression == COMPRESSION_LZW {
        lzw_unpacked(Seq::empty(), bytes, size)
    } else {
        Err(ErrorView::UnknownCompression(compression))
    }
}

/// A fresh decompressor for a compression code: for 1 the one that hands
/// the data through, for 5 an LZW decoder. Every other code is refused.
pub fn create_decompressor(compression: u16) -> (r: Result<TileDecompressor, TiffParserError>)
    ensures
        match r {
            Ok(d) => {
                &&& compression == COMPRESSION_NONE || compression == COMPRESSION_LZW
                &&& compression == COMPRESSION_NONE <==> d is Stored
                &&& forall|bytes: Seq<u8>, size: nat| #[trigger]
                    d.unpacked(bytes, size) == unpacked_by(compression, bytes, size)
            },
            Err(e) => {
                &&& compression != COMPRESSION_NONE
                &&& compression != COMPRESSION_LZW
                &&& e@ == ErrorView::UnknownCompression(compression)
            },
        },
{
    match compression {
        COMPRESSION_NONE => Ok(TileDecompressor::Stored(DummyDecompressor)),
        COMPRESSION_LZW => Ok(TileDecompressor::Lzw(LzwDecompressor::new())),
        compression => Err(TiffParserError::UnknownCompression(compression)),
    }
}

/// Unpacking fails in three ways only: stored data is shorter than asked
/// for, the LZW decoder refuses its input, or the code is not known.
pub proof fn lemma_unpacking_errors(compression: u16, bytes: Seq<u8>, size: nat)
    requires
        unpacked_by(compression, bytes, size) is Err,
    ensures
        unpacked_by(compression, bytes, size)->Err_0 == (if compression == COMPRESSION_NONE {
            ErrorView::TryFromSlice
        } else if compression == COMPRESSION_LZW {
            ErrorView::Lzw
        } else {
            ErrorView::UnknownCompression(compression)
        }),
{
    if compression == COMPRESSION_LZW {
        lemma_lzw_run_error(
            Seq::empty(),
            bytes,
            Seq::new(size, |i: int| 0u8),
            0,
            0,
            lzw_step_limit(bytes.len(), size),
        );
    }
}

/// A run fails only by the decoder's refusal.
pub proof fn lemma_lzw_run_error(
    fed: Seq<(Seq<u8>, Seq<u8>)>,
    bytes: Seq<u8>,
    out: Seq<u8>,
    used: nat,
    filled: nat,
    steps: nat,
)
    requires
        lzw_run(fed, bytes, out, used, filled, steps) is Err,
    ensures
        lzw_run(fed, bytes, out, used, filled, steps)->Err_0 == ErrorView::Lzw,
    decreases steps,
{
    if steps > 0 {
        let inp = bytes.subrange(used as int, bytes.len() as int);
        let region = out.subrange(filled as int, out.len() as int);
        let step = lzw_step(fed, inp, region);
        let next_out = out.subrange(0, filled as int) + step.output;
        if next_action(step.status, filled + step.consumed_out, out.len())
            == LzwActionView::Proceed {
            lemma_lzw_run_error(
                fed.push((inp, region)),
                bytes,
                next_out,
                used + step.consumed_in,
                filled + step.consumed_out,
                (steps - 1) as nat,
            );
        }
    }
}

} // verus!
