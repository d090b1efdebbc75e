//! The three kinds of object.

use vstd::prelude::*;

use crate::error::ObjectError;

verus! {

/// The kind of an object, as its header names it.
#[derive(Debug, Clone, Copy, PartialEq, Eq, Structural)]
pub enum ObjectKind {
    Blob,
    Tree,
    Commit,
}

/// The header token of each kind: `blob`, `tree` or `commit`.
pub open spec fn kind_token(k: ObjectKind) -> Seq<u8> {
    match k {
        ObjectKind::Blob => seq![98u8, 108u8, 111u8, 98u8],
        ObjectKind::Tree => seq![116u8, 114u8, 101u8, 101u8],
        ObjectKind::Commit => seq![99u8, 111u8, 109u8, 109u8, 105u8, 116u8],
    }
}

/// The kind a header token names, if any.
pub open spec fn kind_of_token(t: Seq<u8>) -> Option<ObjectKind> {
    if t == kind_token(ObjectKind::Blob) {
        Some(ObjectKind::Blob)
    } else if t == kind_token(ObjectKind::Tree) {
        Some(ObjectKind::Tree)
    } else if t == kind_token(ObjectKind::Commit) {
        Some(ObjectKind::Commit)
    } else {
        None
    }
}

/// The name of each kind as text.
pub open spec fn kind_name(k: ObjectKind) -> Seq<char> {
    match k {
        ObjectKind::Blob => seq!['b', 'l', 'o', 'b'],
        ObjectKind::Tree => seq!['t', 'r', 'e', 'e'],
        ObjectKind::Commit => seq!['c', 'o', 'm', 'm', 'i', 't'],
    }
}

impl ObjectKind {
    /// Reads a header token; fails with `InvalidKind` on anything but the
    /// three names.
    pub fn parse(token: &[u8]) -> (r: Result<ObjectKind, ObjectError>)
        ensures
            match kind_of_token(token@) {
                Some(k) => r == Ok::<ObjectKind, ObjectError>(k),
                None => r is Err && r->Err_0 is InvalidKind && r->Err_0->InvalidKind_0@ == token@,
            },
    {
        let n = token.len();
        if n == 4 && token[0] == 98u8 && token[1] == 108u8 && token[2] == 111u8 && token[3]
            == 98u8 {
            assert(token@ =~= kind_token(ObjectKind::Blob));
            Ok(ObjectKind::Blob)
        } else if n == 4 && token[0] == 116u8 && token[1] == 114u8 && token[2] == 101u8
            && token[3] == 101u8 {
            assert(token@ =~= kind_token(ObjectKind::Tree));
            Ok(ObjectKind::Tree)
        } else if n == 6 && token[0] == 99u8 && token[1] == 111u8 && token[2] == 109u8
            && token[3] == 109u8 && token[4] == 105u8 && token[5] == 116u8 {
            assert(token@ =~= kind_token(ObjectKind::Commit));
            Ok(ObjectKind::Commit)
        } else {
            proof {
                if token@ == kind_token(ObjectKind::Blob) {
                    assert(token@[0] == 98u8);
                }
                if token@ == kind_token(ObjectKind::Tree) {
                    assert(token@[0] == 116u8);
                }
                if token@ == kind_token(ObjectKind::Commit) {
                    assert(token@[0] == 99u8);
                }
            }
            let mut t: Vec<u8> = Vec::new();
            t.extend_from_slice(token);
            Err(ObjectError::InvalidKind(t))
        }
    }

    /// Reads the name of a kind from text.
    pub fn from_str(s: &str) -> (r: Result<ObjectKind, ObjectError>)
        ensures
            match kind_of_token(vstd::utf8::encode_utf8(s@)) {
                Some(k) => r == Ok::<ObjectKind, ObjectError>(k),
                None => r is Err && r->Err_0 is InvalidKind && r->Err_0->InvalidKind_0@
                    == vstd::utf8::encode_utf8(s@),
            },
    {
        ObjectKind::parse(s.as_bytes())
    }

    /// The name of the kind: `blob`, `tree` or `commit`.
    pub fn name(&self) -> (r: &'static str)
        ensures
            r@ == kind_name(*self),
    {
        match self {
            ObjectKind::Blob => {
                proof {
                    reveal_strlit("blob");
                }
                "blob"
            },
            ObjectKind::Tree => {
                proof {
                    reveal_strlit("tree");
                }
                "tree"
            },
            ObjectKind::Commit => {
                proof {
                    reveal_strlit("commit");
                }
                "commit"
            },
        }
    }
}

} // verus!
