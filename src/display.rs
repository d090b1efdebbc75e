//! What the store's inspection commands show for an object: `cat-file`'s
//! output per display mode, and one step of listing a tree, which follows a
//! commit to its root tree.

use vstd::prelude::*;
use vstd::utf8::{encode_utf8, valid_utf8};

use crate::bytes::{decimal_bytes, push_all, push_decimal};
use crate::commit::commit_payload;
use crate::error::ObjectError;
use crate::kind::kind_name;
use crate::object::{Contents, Object};
use crate::tree::{row_text, tree_text};

verus! {

/// What `cat-file` shows of an object.
#[derive(Debug, Clone, Copy, PartialEq, Eq, Structural)]
pub enum DisplayFlag {
    /// Nothing: the object exists and is valid.
    Exists,
    /// The contents in readable form.
    Pretty,
    /// The size of the payload.
    Size,
    /// The kind.
    Type,
}

impl DisplayFlag {
    /// The mode that a set of flags selects; the first one set wins, and
    /// with none set it is `Type`.
    pub fn from_flags(exists: bool, pretty: bool, size: bool, type_: bool) -> (r: DisplayFlag)
        ensures
            r == (if exists {
                DisplayFlag::Exists
            } else if pretty {
                DisplayFlag::Pretty
            } else if size {
                DisplayFlag::Size
            } else {
                DisplayFlag::Type
            }),
    {
        if exists {
            DisplayFlag::Exists
        } else if pretty {
            DisplayFlag::Pretty
        } else if size {
            DisplayFlag::Size
        } else {
            DisplayFlag::Type
        }
    }
}

/// The bytes `cat-file` prints for an object in a display mode.
pub open spec fn cat_file_bytes(o: Object, flag: DisplayFlag) -> Result<Seq<u8>, ObjectError> {
    match flag {
        DisplayFlag::Exists => Ok(Seq::empty()),
        DisplayFlag::Pretty => match o.contents {
            Contents::Blob(b) => if valid_utf8(b.0@) {
                Ok(b.0@)
            } else {
                Err(ObjectError::NotUtf8)
            },
            Contents::Tree(t) => Ok(encode_utf8(tree_text(t@)) + seq![10u8]),
            Contents::Commit(c) => Ok(commit_payload(c@)),
        },
        DisplayFlag::Size => Ok(decimal_bytes(o.size as nat) + seq![10u8]),
        DisplayFlag::Type => Ok(encode_utf8(kind_name(o.contents.kind_of())) + seq![10u8]),
    }
}

/// What `cat-file` prints for an object: nothing, its contents (a blob as
/// text, a tree one entry per line, a commit as stored), its size or its
/// kind, each line ended by a newline. A blob that is not UTF-8 cannot be
/// shown as text.
pub fn cat_file_output(object: &Object, flag: DisplayFlag) -> (r: Result<Vec<u8>, ObjectError>)
    ensures
        match cat_file_bytes(*object, flag) {
            Ok(b) => r is Ok && r->Ok_0@ == b,
            Err(e) => r == Err::<Vec<u8>, ObjectError>(e),
        },
{
    let mut out: Vec<u8> = Vec::new();
    match flag {
        DisplayFlag::Exists => {},
        DisplayFlag::Pretty => match &object.contents {
            Contents::Blob(b) => match b.try_string() {
                Ok(s) => push_all(&mut out, s.as_str().as_bytes()),
                Err(e) => return Err(e),
            },
            Contents::Tree(t) => {
                let text = t.render();
                push_all(&mut out, text.as_str().as_bytes());
                out.push(10u8);
            },
            Contents::Commit(c) => {
                let bytes = c.serialize();
                push_all(&mut out, bytes.as_slice());
            },
        },
        DisplayFlag::Size => {
            push_decimal(&mut out, object.size as u64);
            out.push(10u8);
        },
        DisplayFlag::Type => {
            push_all(&mut out, object.kind().name().as_bytes());
            out.push(10u8);
        },
    }
    assert(out@ =~= cat_file_bytes(*object, flag)->Ok_0);
    Ok(out)
}

/// One step of listing a tree.
pub enum TreeListing {
    /// The lines to print.
    Lines(Vec<String>),
    /// The object is a commit: list the tree with this hash instead.
    Follow(String),
    /// The object is a blob, which has no entries.
    NotATree,
}

/// What listing an object gives: a tree's entries (only their names, or
/// whole rows), a commit's root tree to list instead, or nothing for a blob.
pub fn ls_tree_step(object: &Object, name_only: bool) -> (r: TreeListing)
    ensures
        match object.contents {
            Contents::Blob(_) => r is NotATree,
            Contents::Tree(t) => r is Lines && r->Lines_0@.len() == t@.len() && forall|i: int|
                0 <= i < t@.len() ==> (#[trigger] r->Lines_0@[i])@ == (if name_only {
                    t@[i].name
                } else {
                    row_text(t@[i])
                }),
            Contents::Commit(c) => r is Follow && r->Follow_0@ == c.tree@,
        },
{
    match &object.contents {
        Contents::Blob(_) => TreeListing::NotATree,
        Contents::Tree(t) => {
            let mut lines: Vec<String> = Vec::new();
            let mut i: usize = 0;
            while i < t.lines.len()
                invariant
                    i <= t.lines@.len(),
                    lines@.len() == i,
                    forall|j: int|
                        0 <= j < i ==> (#[trigger] lines@[j])@ == (if name_only {
                            t@[j].name
                        } else {
                            row_text(t@[j])
                        }),
                decreases t.lines@.len() - i,
            {
                let line = if name_only {
                    t.lines[i].name.clone()
                } else {
                    t.lines[i].render()
                };
                lines.push(line);
                i = i + 1;
            }
            TreeListing::Lines(lines)
        },
        Contents::Commit(c) => TreeListing::Follow(c.tree.clone()),
    }
}

} // verus!
