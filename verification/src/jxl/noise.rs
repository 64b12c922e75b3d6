//! Noise parameters of a frame.
use crate::jxl::error::BitstreamError;
use crate::jxl::frame_error::Error;
use crate::jxl::symbols::SymbolSource;
use vstd::prelude::*;

verus! {

/// Strength of noise at eight intensities, in steps of one in 1024.
#[derive(Debug)]
pub struct NoiseParameters {
    pub lut: Vec<u32>,
}

/// `n` raw values of ten bits from a source on, or the first failure.
pub open spec fn raw_values<S: SymbolSource>(m: S::Model, n: nat) -> Result<
    Seq<u32>,
    BitstreamError,
>
    decreases n,
{
    if n == 0 {
        Ok(Seq::empty())
    } else {
        let (v, next) = S::bits(m, 10);
        match v {
            Err(e) => Err(e),
            Ok(v) => match raw_values::<S>(next, (n - 1) as nat) {
                Err(e) => Err(e),
                Ok(rest) => Ok(seq![v] + rest),
            },
        }
    }
}

/// The source after `n` raw values of ten bits.
pub open spec fn raw_end<S: SymbolSource>(m: S::Model, n: nat) -> S::Model
    decreases n,
{
    if n == 0 {
        m
    } else {
        raw_end::<S>(S::bits(m, 10).1, (n - 1) as nat)
    }
}

/// What is left to be read puts values behind those that were read.
pub open spec fn prefixed(read: Seq<u32>, rest: Result<Seq<u32>, BitstreamError>) -> Result<
    Seq<u32>,
    BitstreamError,
> {
    match rest {
        Err(e) => Err(e),
        Ok(rest) => Ok(read + rest),
    }
}

impl NoiseParameters {
    /// Reads eight values of ten bits.
    pub fn parse<S: SymbolSource>(bitstream: &mut S) -> (r: Result<Self, Error>)
        ensures
            match raw_values::<S>(old(bitstream).model(), 8) {
                Ok(values) => {
                    &&& r is Ok
                    &&& r->Ok_0.lut@ == values
                    &&& values.len() == 8
                    &&& final(bitstream).model() == raw_end::<S>(old(bitstream).model(), 8)
                },
                Err(e) => r is Err && r->Err_0 == Error::Bitstream(e),
            },
    {
        let ghost goal = raw_values::<S>(bitstream.model(), 8);
        let mut lut: Vec<u32> = Vec::new();
        let mut i: usize = 0;
        proof {
            match goal {
                Ok(v) => {
                    assert(Seq::<u32>::empty() + v =~= v);
                },
                Err(_) => {},
            }
        }
        while i < 8
            invariant
                i <= 8,
                lut@.len() == i,
                goal == raw_values::<S>(old(bitstream).model(), 8),
                raw_end::<S>(old(bitstream).model(), 8) == raw_end::<S>(
                    bitstream.model(),
                    (8 - i) as nat,
                ),
                goal == prefixed(lut@, raw_values::<S>(bitstream.model(), (8 - i) as nat)),
            decreases 8 - i,
        {
            let ghost before = lut@;
            let ghost rest = raw_values::<S>(S::bits(bitstream.model(), 10).1, (7 - i) as nat);
            match bitstream.read_bits(10) {
                Err(e) => {
                    return Err(Error::Bitstream(e));
                },
                Ok(v) => {
                    lut.push(v);
                    proof {
                        match rest {
                            Ok(tail) => {
                                assert(before + (seq![v] + tail) =~= lut@ + tail);
                            },
                            Err(_) => {},
                        }
                    }
                },
            }
            i = i + 1;
        }
        assert(lut@ + Seq::<u32>::empty() =~= lut@);
        Ok(NoiseParameters { lut })
    }
}

/// The values are read one behind the other, as numbers of ten bits.
pub proof fn lemma_values_in_turn<S: SymbolSource>(m: S::Model, n: nat)
    requires
        n >= 1,
    ensures
        raw_values::<S>(m, n) is Ok ==> {
            let values = raw_values::<S>(m, n)->Ok_0;
            let first = S::bits(m, 10);
            &&& values.len() == n
            &&& first.0 == Ok::<u32, BitstreamError>(values[0])
            &&& raw_values::<S>(first.1, (n - 1) as nat) == Ok::<Seq<u32>, BitstreamError>(
                values.skip(1),
            )
        },
        S::bits(m, 10).0 is Err ==> raw_values::<S>(m, n) == Err::<Seq<u32>, BitstreamError>(
            S::bits(m, 10).0->Err_0,
        ),
    decreases n,
{
    if raw_values::<S>(m, n) is Ok {
        let next = S::bits(m, 10).1;
        if n > 1 {
            lemma_values_in_turn::<S>(next, (n - 1) as nat);
        }
        let rest = raw_values::<S>(next, (n - 1) as nat)->Ok_0;
        assert(raw_values::<S>(m, n)->Ok_0.skip(1) =~= rest);
    }
}

} // verus!
