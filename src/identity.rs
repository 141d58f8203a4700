//! Identities of creators and voters, and their byte-wise total order.
use vstd::prelude::*;

verus! {

/// Length in bytes of an identity.
pub const IDENTITY_LEN: usize = 32;

/// An opaque fixed-length identity (a public key).
#[derive(Clone, Copy, Debug, PartialEq, Eq)]
pub struct Identity {
    pub bytes: [u8; 32],
}

impl View for Identity {
    type V = Seq<u8>;

    open spec fn view(&self) -> Seq<u8> {
        self.bytes@
    }
}

/// The first `i` bytes of `a` and `b` agree.
pub open spec fn agree_below(a: Seq<u8>, b: Seq<u8>, i: int) -> bool {
    forall|k: int| 0 <= k < i ==> a[k] == b[k]
}

/// `i` is the first position where `a` and `b` differ, and `a` is smaller there.
pub open spec fn first_smaller_at(a: Seq<u8>, b: Seq<u8>, i: int) -> bool {
    &&& 0 <= i < a.len()
    &&& i < b.len()
    &&& agree_below(a, b, i)
    &&& a[i] < b[i]
}

/// Lexicographic order on byte strings of equal length.
pub open spec fn lex_lt(a: Seq<u8>, b: Seq<u8>) -> bool {
    exists|i: int| #[trigger] first_smaller_at(a, b, i)
}

/// Result of comparing two identities.
#[derive(Clone, Copy, Debug, PartialEq, Eq)]
pub enum KeyOrder {
    Less,
    Equal,
    Greater,
}

pub proof fn lemma_lex_lt_irreflexive(a: Seq<u8>)
    ensures
        !lex_lt(a, a),
{
}

pub proof fn lemma_lex_lt_transitive(a: Seq<u8>, b: Seq<u8>, c: Seq<u8>)
    requires
        lex_lt(a, b),
        lex_lt(b, c),
    ensures
        lex_lt(a, c),
{
    let i = choose|i: int| #[trigger] first_smaller_at(a, b, i);
    let j = choose|j: int| #[trigger] first_smaller_at(b, c, j);
    if i <= j {
        assert(first_smaller_at(a, c, i));
    } else {
        assert(first_smaller_at(a, c, j));
    }
}

pub proof fn lemma_lex_lt_asymmetric(a: Seq<u8>, b: Seq<u8>)
    requires
        lex_lt(a, b),
    ensures
        !lex_lt(b, a),
{
    if lex_lt(b, a) {
        lemma_lex_lt_transitive(a, b, a);
    }
}

impl Identity {
    /// Wraps raw key bytes.
    pub fn new(bytes: [u8; 32]) -> (r: Identity)
        ensures
            r.bytes == bytes,
    {
        Identity { bytes }
    }

    /// Byte-exact equality.
    pub fn same_as(&self, other: &Identity) -> (r: bool)
        ensures
            r == (self@ == other@),
    {
        match self.compare(other) {
            KeyOrder::Equal => true,
            KeyOrder::Less => {
                proof {
                    lemma_lex_lt_irreflexive(self@);
                }
                false
            },
            KeyOrder::Greater => {
                proof {
                    lemma_lex_lt_irreflexive(self@);
                }
                false
            },
        }
    }

    /// Lexicographic comparison of the key bytes.
    pub fn compare(&self, other: &Identity) -> (r: KeyOrder)
        ensures
            r == KeyOrder::Less ==> lex_lt(self@, other@),
            r == KeyOrder::Equal ==> self@ == other@,
            r == KeyOrder::Greater ==> lex_lt(other@, self@),
    {
        let mut i: usize = 0;
        while i < IDENTITY_LEN
            invariant
                0 <= i <= IDENTITY_LEN,
                self@.len() == IDENTITY_LEN,
                other@.len() == IDENTITY_LEN,
                agree_below(self@, other@, i as int),
            decreases IDENTITY_LEN - i,
        {
            let x = self.bytes[i];
            let y = other.bytes[i];
            if x < y {
                assert(first_smaller_at(self@, other@, i as int));
                return KeyOrder::Less;
            }
            if y < x {
                assert(first_smaller_at(other@, self@, i as int));
                return KeyOrder::Greater;
            }
            i = i + 1;
        }
        assert(self@ =~= other@);
        KeyOrder::Equal
    }
}

} // verus!
