use vstd::prelude::*;
use crate::types::QueryError;

verus! {

/// A connected datagram socket. `Err(QueryError::Timeout)` reports that no
/// data came in time; any other error is final.
pub trait Transport {
    fn send(&mut self, data: &Vec<u8>) -> Result<(), QueryError>;

    fn receive(&mut self, max_size: usize) -> Result<Vec<u8>, QueryError>;
}

/// What one receive gave: the datagram, or the transport's error.
pub open spec fn datagram_view(r: Result<Vec<u8>, QueryError>) -> Result<Seq<u8>, QueryError> {
    match r {
        Ok(d) => Ok(d@),
        Err(e) => Err(e),
    }
}

/// A transport together with the record of every datagram handed to it and
/// every outcome of a receive. The record changes only through `send` and
/// `receive`, so it is what went over the transport.
pub struct Link<T: Transport> {
    transport: T,
    sent: Ghost<Seq<(Seq<u8>, Result<(), QueryError>)>>,
    received: Ghost<Seq<Result<Seq<u8>, QueryError>>>,
    sizes: Ghost<Seq<usize>>,
}

impl<T: Transport> Link<T> {
    /// Each datagram sent, with the outcome of the send, in order.
    pub closed spec fn sent(&self) -> Seq<(Seq<u8>, Result<(), QueryError>)> {
        self.sent@
    }

    /// Each outcome of a receive, in order.
    pub closed spec fn received(&self) -> Seq<Result<Seq<u8>, QueryError>> {
        self.received@
    }

    /// The largest size asked of each receive, in order.
    pub closed spec fn receive_sizes(&self) -> Seq<usize> {
        self.sizes@
    }

    pub fn new(transport: T) -> (r: Self)
        ensures
            r.sent() == Seq::<(Seq<u8>, Result<(), QueryError>)>::empty(),
            r.received() == Seq::<Result<Seq<u8>, QueryError>>::empty(),
            r.receive_sizes() == Seq::<usize>::empty(),
    {
        Link { transport, sent: Ghost(Seq::empty()), received: Ghost(Seq::empty()), sizes: Ghost(Seq::empty()) }
    }

    pub fn transport(&self) -> &T {
        &self.transport
    }

    pub fn send(&mut self, data: &Vec<u8>) -> (r: Result<(), QueryError>)
        ensures
            final(self).sent() == old(self).sent().push((data@, r)),
            final(self).received() == old(self).received(),
            final(self).receive_sizes() == old(self).receive_sizes(),
    {
        let r = self.transport.send(data);
        self.sent = Ghost(self.sent@.push((data@, r)));
        r
    }

    pub fn receive(&mut self, max_size: usize) -> (r: Result<Vec<u8>, QueryError>)
        ensures
            final(self).received() == old(self).received().push(datagram_view(r)),
            final(self).receive_sizes() == old(self).receive_sizes().push(max_size),
            final(self).sent() == old(self).sent(),
    {
        let r = self.transport.receive(max_size);
        self.sizes = Ghost(self.sizes@.push(max_size));
        self.received = Ghost(self.received@.push(datagram_view(r)));
        r
    }
}

} // verus!
