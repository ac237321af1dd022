use vstd::prelude::*;

verus! {

/// The kind of a stored object.
#[derive(Debug, Clone, Copy, PartialEq, Eq, Structural)]
pub enum Kind {
    Blob,
    Tree,
    Commit,
}

/// The lowercase token that names a kind in an object header.
pub open spec fn kind_token(k: Kind) -> Seq<u8> {
    match k {
        Kind::Blob => seq![98, 108, 111, 98],
        Kind::Tree => seq![116, 114, 101, 101],
        Kind::Commit => seq![99, 111, 109, 109, 105, 116],
    }
}

/// The kind whose token is exactly `t`, if any.
pub open spec fn kind_of_token(t: Seq<u8>) -> Option<Kind> {
    if t == kind_token(Kind::Blob) {
        Some(Kind::Blob)
    } else if t == kind_token(Kind::Tree) {
        Some(Kind::Tree)
    } else if t == kind_token(Kind::Commit) {
        Some(Kind::Commit)
    } else {
        None
    }
}

/// Each kind is recovered from its own token.
pub proof fn lemma_kind_token_round_trip(k: Kind)
    ensures
        kind_of_token(kind_token(k)) == Some(k),
{
    assert(kind_token(Kind::Blob) != kind_token(Kind::Tree)) by {
        assert(kind_token(Kind::Blob)[0] != kind_token(Kind::Tree)[0]);
    }
    assert(kind_token(Kind::Blob) != kind_token(Kind::Commit)) by {
        assert(kind_token(Kind::Blob).len() != kind_token(Kind::Commit).len());
    }
    assert(kind_token(Kind::Tree) != kind_token(Kind::Commit)) by {
        assert(kind_token(Kind::Tree).len() != kind_token(Kind::Commit).len());
    }
}

impl Kind {
    /// The header token of this kind, as bytes.
    pub fn token(&self) -> (r: Vec<u8>)
        ensures
            r@ == kind_token(*self),
    {
        let r = match self {
            Kind::Blob => vec![98, 108, 111, 98],
            Kind::Tree => vec![116, 114, 101, 101],
            Kind::Commit => vec![99, 111, 109, 109, 105, 116],
        };
        assert(r@ =~= kind_token(*self));
        r
    }

    /// The kind named by the bytes `t`, or `None` when `t` is not one of the
    /// three tokens.
    pub fn from_token(t: &[u8]) -> (r: Option<Kind>)
        ensures
            r == kind_of_token(t@),
    {
        proof {
            lemma_kind_token_round_trip(Kind::Blob);
            lemma_kind_token_round_trip(Kind::Tree);
            lemma_kind_token_round_trip(Kind::Commit);
        }
        if t.len() == 4 && t[0] == 98 && t[1] == 108 && t[2] == 111 && t[3] == 98 {
            assert(t@ =~= kind_token(Kind::Blob));
            Some(Kind::Blob)
        } else if t.len() == 4 && t[0] == 116 && t[1] == 114 && t[2] == 101 && t[3] == 101 {
            assert(t@ =~= kind_token(Kind::Tree));
            Some(Kind::Tree)
        } else if t.len() == 6 && t[0] == 99 && t[1] == 111 && t[2] == 109 && t[3] == 109
            && t[4] == 105 && t[5] == 116 {
            assert(t@ =~= kind_token(Kind::Commit));
            Some(Kind::Commit)
        } else {
            assert(t@ != kind_token(Kind::Blob) && t@ != kind_token(Kind::Tree) && t@ != kind_token(Kind::Commit));
            None
        }
    }
}

} // verus!
