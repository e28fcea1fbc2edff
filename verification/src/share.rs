//! The share record: one of the `n` outputs of a dispersal.

use vstd::prelude::*;

verus! {

/// One share of a dispersal.
#[derive(Debug, Clone)]
pub struct RabinShare {
    /// The point at which the data's polynomials were evaluated.
    pub id: u8,
    /// The length of the dispersed data, in bytes.
    pub length: usize,
    /// One byte for each chunk of the data.
    pub body: Vec<u8>,
}

/// A share as a mathematical value.
pub struct ShareView {
    pub id: u8,
    pub length: nat,
    pub body: Seq<u8>,
}

impl View for RabinShare {
    type V = ShareView;

    open spec fn view(&self) -> ShareView {
        ShareView { id: self.id, length: self.length as nat, body: self.body@ }
    }
}

/// The mathematical values of a sequence of shares.
pub open spec fn share_views(shares: Seq<RabinShare>) -> Seq<ShareView> {
    Seq::new(shares.len(), |i: int| shares[i]@)
}

impl RabinShare {
    /// The length of the data that this share was made from.
    pub fn size(&self) -> (r: usize)
        ensures
            r == self.length,
    {
        self.length
    }

    /// A blank share with a body of `size` zero bytes.
    pub fn with_size(size: usize) -> (r: Self)
        ensures
            r.id == 0,
            r.length == 0,
            r.body@ == Seq::new(size as nat, |i: int| 0u8),
    {
        let body: Vec<u8> = vec![0u8; size];
        assert(body@ =~= Seq::new(size as nat, |i: int| 0u8));
        Self { id: 0, length: 0, body }
    }
}

} // verus!
