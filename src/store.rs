//! Where objects live in a store, how their files are written and read, and
//! how an abbreviated hash is resolved within a bucket of the store.

use vstd::prelude::*;
use vstd::string::StringExecFns;

use crate::codec::{zlib_compressed, zlib_decode, zlib_encode, zlib_inflated};
use crate::error::ObjectError;
use crate::hash::{hex_of, same_text, sha1_of};
use crate::object::{object_parsed, Object};

verus! {

/// The paths of a store: the working tree root and the store directory in it.
pub struct Context {
    pub repo_root: String,
    pub git_dir: String,
}

/// `/.git`
pub open spec fn git_dir_suffix() -> Seq<char> {
    seq!['/', '.', 'g', 'i', 't']
}

/// `/objects/`
pub open spec fn objects_infix() -> Seq<char> {
    seq!['/', 'o', 'b', 'j', 'e', 'c', 't', 's', '/']
}

impl Context {
    /// A store whose directory is `.git` under the given root.
    pub fn new(repo_root: String) -> (r: Context)
        ensures
            r.repo_root@ == repo_root@,
            r.git_dir@ == repo_root@ + git_dir_suffix(),
    {
        let mut git_dir = repo_root.clone();
        git_dir.append("/.git");
        proof {
            reveal_strlit("/.git");
            assert("/.git"@ =~= git_dir_suffix());
        }
        Context { repo_root, git_dir }
    }

    /// The bucket directory of a hash: `<git_dir>/objects/<first two digits>`.
    pub fn object_dir(&self, hash: &str) -> (r: String)
        requires
            hash@.len() >= 2,
        ensures
            r@ == self.git_dir@ + objects_infix() + hash@.take(2),
    {
        let mut dir = self.git_dir.clone();
        dir.append("/objects/");
        dir.append(hash.substring_char(0, 2));
        proof {
            reveal_strlit("/objects/");
            assert("/objects/"@ =~= objects_infix());
            assert(hash@.subrange(0, 2) =~= hash@.take(2));
        }
        dir
    }

    /// The file of a hash: its bucket directory, then the remaining digits.
    pub fn object_path(&self, hash: &str) -> (r: String)
        requires
            hash@.len() >= 2,
        ensures
            r@ == self.git_dir@ + objects_infix() + hash@.take(2) + seq!['/'] + hash@.skip(2),
    {
        let mut path = self.object_dir(hash);
        path.append("/");
        path.append(hash.substring_char(2, hash.unicode_len()));
        proof {
            reveal_strlit("/");
            assert(hash@.subrange(2, hash@.len() as int) =~= hash@.skip(2));
        }
        path
    }
}

/// The file of one object in a store.
pub struct ObjectFile<'a> {
    pub context: &'a Context,
    pub hash: &'a str,
}

impl<'a> ObjectFile<'a> {
    /// The file of the object with the given full hash.
    pub fn new(context: &'a Context, hash: &'a str) -> (r: ObjectFile<'a>)
        ensures
            r.context == context,
            r.hash == hash,
    {
        ObjectFile { context, hash }
    }

    /// What the file of `object` holds: its canonical encoding, compressed.
    /// The file must be named by the object's own hash, else this fails with
    /// `HashMismatch`; otherwise it succeeds, for every kind of object, and
    /// gives the same bytes each time.
    pub fn file_contents(&self, object: &Object) -> (r: Result<Vec<u8>, ObjectError>)
        requires
            object.wf(),
        ensures
            self.hash@ != hex_of(sha1_of(object.encoded())) ==> r == Err::<Vec<u8>, ObjectError>(
                ObjectError::HashMismatch,
            ),
            self.hash@ == hex_of(sha1_of(object.encoded())) ==> r is Ok && r->Ok_0@
                == zlib_compressed(object.encoded()),
    {
        let bytes = object.encode();
        let hash = crate::hash::digest_hex(bytes.as_slice());
        if !same_text(self.hash, hash.as_str()) {
            return Err(ObjectError::HashMismatch);
        }
        zlib_encode(bytes.as_slice())
    }

    /// The object that the bytes of its file hold: they are inflated and then
    /// parsed. A file written for an object parses as its canonical encoding.
    pub fn parse(&self, file: &[u8]) -> (r: Result<Object, ObjectError>)
        ensures
            match zlib_inflated(file@) {
                None => r == Err::<Object, ObjectError>(ObjectError::CorruptObject(None)),
                Some(body) => object_parsed(body, r),
            },
            forall|x: Seq<u8>| #[trigger] zlib_compressed(x) == file@ ==> object_parsed(x, r),
    {
        match zlib_decode(file) {
            Ok(body) => Object::parse(body.as_slice()),
            Err(e) => Err(e),
        }
    }
}

} // verus!
