use vstd::prelude::*;

verus! {

/// The identity of a validator, as a key.
pub type Address = u64;

/// A content-derived identifier of a certificate.
pub type CertificateId = u64;

/// What the DAG reads of a batch certificate: the round it belongs to, its
/// author, and its identifier. Certificates are built and checked elsewhere;
/// here they are only stored and indexed.
#[derive(Clone, Copy, Debug, PartialEq, Eq, Structural)]
pub struct Certificate {
    pub round: u64,
    pub author: Address,
    pub certificate_id: CertificateId,
}

impl Certificate {
    /// Builds a certificate record from its three parts.
    pub fn new(round: u64, author: Address, certificate_id: CertificateId) -> (c: Certificate)
        ensures
            c.round == round,
            c.author == author,
            c.certificate_id == certificate_id,
    {
        Certificate { round, author, certificate_id }
    }

    /// The round of the certificate.
    pub fn round(&self) -> (r: u64)
        ensures
            r == self.round,
    {
        self.round
    }

    /// The author of the certificate.
    pub fn author(&self) -> (a: Address)
        ensures
            a == self.author,
    {
        self.author
    }

    /// The identifier of the certificate.
    pub fn certificate_id(&self) -> (id: CertificateId)
        ensures
            id == self.certificate_id,
    {
        self.certificate_id
    }
}

} // verus!
