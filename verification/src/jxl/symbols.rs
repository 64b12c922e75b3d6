//! Where decoded symbols come from.
use crate::jxl::error::{BitstreamError, CodingError, IoErrorKind};
use vstd::prelude::*;

verus! {

/// A bitstream with an entropy decoder: raw bits, and symbols of clusters of contexts.
///
/// What a read returns is a function of the state and the request.
pub trait SymbolSource {
    type Model;

    spec fn model(&self) -> Self::Model;

    spec fn bits(m: Self::Model, n: int) -> (Result<u32, BitstreamError>, Self::Model);

    spec fn begun(m: Self::Model) -> (Result<(), CodingError>, Self::Model);

    spec fn symbol(m: Self::Model, cluster: u8) -> (Result<u32, CodingError>, Self::Model);

    spec fn ended(m: Self::Model) -> (Result<(), CodingError>, Self::Model);

    /// Reads `n` raw bits.
    fn read_bits(&mut self, n: usize) -> (r: Result<u32, BitstreamError>)
        ensures
            (r, final(self).model()) == Self::bits(old(self).model(), n as int),
    ;

    /// Starts the entropy decoder.
    fn begin(&mut self) -> (r: Result<(), CodingError>)
        ensures
            (r, final(self).model()) == Self::begun(old(self).model()),
    ;

    /// Reads a symbol of a cluster.
    fn read_symbol(&mut self, cluster: u8) -> (r: Result<u32, CodingError>)
        ensures
            (r, final(self).model()) == Self::symbol(old(self).model(), cluster),
    ;

    /// Checks that the entropy decoder ended where it should.
    fn finalize(&mut self) -> (r: Result<(), CodingError>)
        ensures
            (r, final(self).model()) == Self::ended(old(self).model()),
    ;
}

/// Symbols that were decoded before, in a queue per cluster. An empty queue is an early end.
pub struct SymbolTape {
    /// Values of raw reads, last one first.
    pub raw: Vec<u32>,
    /// Symbols of each cluster, last one first.
    pub queues: Vec<Vec<u32>>,
}

pub struct TapeModel {
    pub raw: Seq<u32>,
    pub queues: Seq<Seq<u32>>,
}

pub open spec fn queue_views(queues: Seq<Vec<u32>>) -> Seq<Seq<u32>> {
    Seq::new(queues.len(), |k: int| queues[k]@)
}

pub open spec fn early_end() -> BitstreamError {
    BitstreamError::Io(IoErrorKind::UnexpectedEof)
}

impl SymbolSource for SymbolTape {
    type Model = TapeModel;

    open spec fn model(&self) -> TapeModel {
        TapeModel { raw: self.raw@, queues: queue_views(self.queues@) }
    }

    open spec fn bits(m: TapeModel, n: int) -> (Result<u32, BitstreamError>, TapeModel) {
        if m.raw.len() == 0 {
            (Err(early_end()), m)
        } else {
            (Ok(m.raw.last()), TapeModel { raw: m.raw.drop_last(), queues: m.queues })
        }
    }

    open spec fn begun(m: TapeModel) -> (Result<(), CodingError>, TapeModel) {
        (Ok(()), m)
    }

    open spec fn symbol(m: TapeModel, cluster: u8) -> (Result<u32, CodingError>, TapeModel) {
        if cluster >= m.queues.len() || m.queues[cluster as int].len() == 0 {
            (Err(CodingError::Bitstream(early_end())), m)
        } else {
            let q = m.queues[cluster as int];
            (
                Ok(q.last()),
                TapeModel { raw: m.raw, queues: m.queues.update(cluster as int, q.drop_last()) },
            )
        }
    }

    open spec fn ended(m: TapeModel) -> (Result<(), CodingError>, TapeModel) {
        (Ok(()), m)
    }

    fn read_bits(&mut self, n: usize) -> (r: Result<u32, BitstreamError>) {
        match self.raw.pop() {
            None => Err(BitstreamError::Io(IoErrorKind::UnexpectedEof)),
            Some(v) => Ok(v),
        }
    }

    fn begin(&mut self) -> (r: Result<(), CodingError>) {
        Ok(())
    }

    fn read_symbol(&mut self, cluster: u8) -> (r: Result<u32, CodingError>) {
        let i: usize = cluster as usize;
        let ghost before = queue_views(self.queues@);
        if i >= self.queues.len() {
            return Err(CodingError::Bitstream(BitstreamError::Io(IoErrorKind::UnexpectedEof)));
        }
        let v: Option<u32> = self.queues[i].pop();
        assert(queue_views(self.queues@) =~= before.update(i as int, self.queues@[i as int]@));
        match v {
            None => {
                assert(queue_views(self.queues@) =~= before);
                Err(CodingError::Bitstream(BitstreamError::Io(IoErrorKind::UnexpectedEof)))
            },
            Some(v) => Ok(v),
        }
    }

    fn finalize(&mut self) -> (r: Result<(), CodingError>) {
        Ok(())
    }
}

} // verus!
