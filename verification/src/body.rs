use vstd::prelude::*;

verus! {

/// How many failed reads the body of a request may meet before the server gives up
/// on the rest of it.
pub const RETRIES: u8 = 5;

/// The body of an HTTP request as far as it has been read.
pub struct BodyModel {
    pub body: Seq<u8>,
    pub content_length: Option<usize>,
    pub retries: u8,
}

/// Collects the body of a request that declares its length: the bytes that came with
/// the head, then further reads until the declared length is reached or reads have
/// failed too often.
pub struct BodyReader {
    body: Vec<u8>,
    content_length: Option<usize>,
    retries: u8,
}

impl View for BodyReader {
    type V = BodyModel;

    closed spec fn view(&self) -> BodyModel {
        BodyModel { body: self.body@, content_length: self.content_length, retries: self.retries }
    }
}

/// More is read while the declared length is not reached and no more than `RETRIES`
/// reads have failed.
pub open spec fn wants_more(m: BodyModel) -> bool {
    &&& m.content_length matches Some(n)
    &&& m.body.len() < n
    &&& m.retries <= RETRIES
}

impl BodyReader {
    /// Starts on a request with the bytes of the body that came with its head. A
    /// request that declares no length has an empty body, whatever followed its head.
    pub fn new(content_length: Option<usize>, first: &[u8]) -> (r: Self)
        ensures
            r@.content_length == content_length,
            r@.retries == 1,
            r@.body == (if content_length is Some { first@ } else { Seq::<u8>::empty() }),
    {
        let mut body: Vec<u8> = Vec::new();
        if content_length.is_some() {
            body.extend_from_slice(first);
            assert(body@ =~= first@);
        }
        BodyReader { body, content_length, retries: 1 }
    }

    /// Whether another read is due.
    pub fn wants_more(&self) -> (more: bool)
        ensures more == wants_more(self@),
    {
        match self.content_length {
            Some(n) => self.body.len() < n && self.retries <= RETRIES,
            None => false,
        }
    }

    /// Takes in the bytes of a read.
    pub fn take_read(&mut self, bytes: &[u8])
        ensures
            final(self)@ == (BodyModel { body: old(self)@.body + bytes@, ..old(self)@ }),
    {
        self.body.extend_from_slice(bytes);
        assert(self.body@ =~= old(self)@.body + bytes@);
    }

    /// Counts a failed read.
    pub fn take_error(&mut self)
        requires
            wants_more(old(self)@),
        ensures
            final(self)@ == (BodyModel { retries: (old(self)@.retries + 1) as u8, ..old(self)@ }),
    {
        self.retries = self.retries + 1;
    }

    /// The number of the current attempt: one more than the failed reads so far.
    pub fn retries(&self) -> (n: u8)
        ensures n == self@.retries,
    {
        self.retries
    }

    /// The body read so far.
    pub fn into_body(self) -> (body: Vec<u8>)
        ensures body@ == self@.body,
    {
        self.body
    }
}

/// Another read is wanted exactly when a length was declared, the body is still
/// shorter than it, and no more than `RETRIES` reads have failed.
pub proof fn lemma_wants_more_exactly(m: BodyModel)
    ensures
        wants_more(m) <==> (m.content_length is Some && m.body.len() < m.content_length->0
            && m.retries <= RETRIES),
        m.content_length is Some && m.body.len() < m.content_length->0 && m.retries <= 5
            ==> wants_more(m),
{
}

/// Reading stops after the declared length is reached, or once `RETRIES` reads have
/// failed: a reader that has counted `RETRIES` failures wants no more.
pub proof fn lemma_retries_bounded(m: BodyModel)
    requires
        m.retries > RETRIES,
    ensures
        !wants_more(m),
{
}

} // verus!
