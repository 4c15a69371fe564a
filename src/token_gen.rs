use mio::Token;
use vstd::prelude::*;

verus! {

/// Relies on mio::Token being declared `pub struct Token(pub usize)`: the
/// handle is its public index and nothing else.
#[verifier::external_type_specification]
pub struct ExToken(mio::Token);

/// Issues unique handles: a monotonically increasing counter.
pub struct TokenGen {
    id: usize,
}

impl TokenGen {
    /// The number of handles issued so far.
    pub closed spec fn issued(&self) -> nat {
        self.id as nat
    }

    pub fn new() -> (r: TokenGen)
        ensures
            r.issued() == 0,
    {
        TokenGen { id: 0 }
    }

    /// Whether another handle can be issued.
    pub fn can_issue(&self) -> (r: bool)
        ensures
            r == (self.issued() < usize::MAX),
    {
        self.id < usize::MAX
    }

    /// Hands out the next handle; every handle is strictly larger than all
    /// handles issued before it.
    pub fn next_token(&mut self) -> (r: Token)
        requires
            old(self).issued() < usize::MAX,
        ensures
            final(self).issued() == old(self).issued() + 1,
            r.0 == final(self).issued(),
    {
        self.id = self.id + 1;
        Token(self.id)
    }
}

} // verus!
