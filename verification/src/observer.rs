//! Observers of the bytes that pass through an asynchronous writer.
use vstd::prelude::*;

verus! {

/// Observer for the operations of an asynchronous writer: each call is told of
/// one write, flush or shutdown. The default methods ignore what they are told.
pub trait AsyncWriteObserver {
    /// Which writes the observer can take in its present state.
    spec fn accepts_write(&self, data: Seq<u8>) -> bool;

    /// Told of the bytes of one write.
    #[allow(unused_variables)]
    fn write(&mut self, data: &[u8])
        requires
            old(self).accepts_write(data@),
    {
    }

    /// Told of a flush.
    fn flush(&mut self) {
    }

    /// Told of a shutdown.
    fn shutdown(&mut self) {
    }
}

} // verus!
