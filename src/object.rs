//! Objects: a kind, a payload size and the parsed contents, with the
//! canonical encoding `<kind> <size>\0<payload>` that is hashed and stored.

use vstd::prelude::*;
use vstd::utf8::{encode_utf8, valid_utf8};

use crate::bytes::{
    decimal, decimal_bytes, find_in, find_seq, lemma_decimal_bytes, lemma_find_byte_after,
    parse_decimal, push_all, push_decimal,
};
use crate::commit::{
    commit_payload, commit_well_formed, lemma_commit_round_trip, parse_commit, CommitContents,
};
use crate::error::ObjectError;
use crate::hash::{digest_hex, hex_of, is_hex_text, sha1_of};
use crate::kind::{kind_of_token, kind_token, ObjectKind};
use crate::text::utf8_string;
use crate::tree::{
    lemma_parse_tree_hashes, lemma_parse_tree_payload, lemma_parsed_rows_wf, parse_tree, row_of,
    row_storable, rows_wf, tree_payload, TreeContents, TreeEntryModel,
};

verus! {

/// The contents of a blob: opaque bytes.
pub struct BlobContents(pub Vec<u8>);

impl BlobContents {
    /// A blob holding a copy of the given bytes.
    pub fn new(contents: &[u8]) -> (r: BlobContents)
        ensures
            r.0@ == contents@,
    {
        let mut body: Vec<u8> = Vec::new();
        push_all(&mut body, contents);
        assert(body@ =~= contents@);
        BlobContents(body)
    }

    /// The blob as text; fails with `NotUtf8` where it is not valid UTF-8.
    pub fn try_string(&self) -> (r: Result<String, ObjectError>)
        ensures
            r is Ok <==> valid_utf8(self.0@),
            r is Ok ==> encode_utf8(r->Ok_0@) == self.0@,
            r is Err ==> r == Err::<String, ObjectError>(ObjectError::NotUtf8),
    {
        match utf8_string(self.0.as_slice()) {
            Some(s) => Ok(s),
            None => Err(ObjectError::NotUtf8),
        }
    }
}

/// The contents of an object, by kind.
pub enum Contents {
    Blob(BlobContents),
    Tree(TreeContents),
    Commit(CommitContents),
}

/// `<kind> <size>\0<payload>`, the form that is hashed and stored.
pub open spec fn encoded_object(k: ObjectKind, payload: Seq<u8>) -> Seq<u8> {
    kind_token(k) + seq![32u8] + decimal_bytes(payload.len()) + seq![0u8] + payload
}

/// Why a header is malformed: a type token that names no kind, or another
/// error.
pub enum HeaderFault {
    Kind(Seq<u8>),
    Other(ObjectError),
}

/// Whether an error reports a header fault: the offending token, or the
/// error itself.
pub open spec fn reports(e: ObjectError, f: HeaderFault) -> bool {
    match f {
        HeaderFault::Kind(t) => e is InvalidKind && e->InvalidKind_0@ == t,
        HeaderFault::Other(x) => e == x,
    }
}

/// The kind and the start of the payload that the header of `body` gives, or
/// why the header is malformed.
pub open spec fn parse_header(body: Seq<u8>) -> Result<(ObjectKind, int), HeaderFault> {
    match find_seq(body, seq![32u8]) {
        None => Err(HeaderFault::Other(ObjectError::CorruptObject(None))),
        Some(sp) => match kind_of_token(body.take(sp)) {
            None => Err(HeaderFault::Kind(body.take(sp))),
            Some(k) => match find_seq(body.skip(sp + 1), seq![0u8]) {
                None => Err(HeaderFault::Other(ObjectError::CorruptObject(None))),
                Some(z) => match decimal(body.subrange(sp + 1, sp + 1 + z), usize::MAX as nat) {
                    None => Err(HeaderFault::Other(ObjectError::CorruptObject(None))),
                    Some(n) => if body.len() - (sp + 2 + z) != n {
                        Err(HeaderFault::Other(ObjectError::CorruptObject(Some(n as usize))))
                    } else {
                        Ok((k, sp + 2 + z))
                    },
                },
            },
        },
    }
}

/// What parsing payload `p` as kind `k` gives.
pub open spec fn contents_parsed(
    k: ObjectKind,
    p: Seq<u8>,
    r: Result<Contents, ObjectError>,
) -> bool {
    match k {
        ObjectKind::Blob => r is Ok && r->Ok_0 is Blob && r->Ok_0->Blob_0.0@ == p,
        ObjectKind::Tree => match parse_tree(p) {
            Ok(es) => r is Ok && r->Ok_0 is Tree && r->Ok_0->Tree_0@ == es.map_values(
                |e: TreeEntryModel| row_of(e),
            ),
            Err(e) => r == Err::<Contents, ObjectError>(e),
        },
        ObjectKind::Commit => match parse_commit(p) {
            Ok(m) => r is Ok && r->Ok_0 is Commit && r->Ok_0->Commit_0@ == m,
            Err(e) => r == Err::<Contents, ObjectError>(e),
        },
    }
}

/// What parsing an encoded object gives: the error of a malformed header,
/// or the contents parsed by kind with the size the header gives.
pub open spec fn object_parsed(body: Seq<u8>, r: Result<Object, ObjectError>) -> bool {
    match parse_header(body) {
        Err(f) => r is Err && reports(r->Err_0, f),
        Ok((k, start)) => {
            &&& contents_parsed(
                k,
                body.skip(start),
                match r {
                    Ok(o) => Ok(o.contents),
                    Err(e) => Err(e),
                },
            )
            &&& (r is Ok ==> r->Ok_0.size == body.len() - start)
        },
    }
}

impl Contents {
    /// The kind of these contents.
    pub open spec fn kind_of(&self) -> ObjectKind {
        match self {
            Contents::Blob(_) => ObjectKind::Blob,
            Contents::Tree(_) => ObjectKind::Tree,
            Contents::Commit(_) => ObjectKind::Commit,
        }
    }

    /// The payload these contents are stored as.
    pub open spec fn payload(&self) -> Seq<u8> {
        match self {
            Contents::Blob(b) => b.0@,
            Contents::Tree(t) => tree_payload(t@),
            Contents::Commit(c) => commit_payload(c@),
        }
    }

    /// Tree entries name their objects by 40 hexadecimal digits.
    pub open spec fn wf(&self) -> bool {
        match self {
            Contents::Tree(t) => rows_wf(t@),
            _ => true,
        }
    }

    /// Parses a payload as the given kind.
    pub fn parse(kind: ObjectKind, body: &[u8]) -> (r: Result<Contents, ObjectError>)
        ensures
            contents_parsed(kind, body@, r),
    {
        match kind {
            ObjectKind::Blob => Ok(Contents::Blob(BlobContents::new(body))),
            ObjectKind::Tree => match TreeContents::parse(body) {
                Ok(t) => Ok(Contents::Tree(t)),
                Err(e) => Err(e),
            },
            ObjectKind::Commit => match CommitContents::parse(body) {
                Ok(c) => Ok(Contents::Commit(c)),
                Err(e) => Err(e),
            },
        }
    }

    /// The payload these contents are stored as.
    pub fn serialize(&self) -> (r: Vec<u8>)
        requires
            self.wf(),
        ensures
            r@ == self.payload(),
    {
        match self {
            Contents::Blob(b) => {
                let mut out: Vec<u8> = Vec::new();
                push_all(&mut out, b.0.as_slice());
                assert(out@ =~= b.0@);
                out
            },
            Contents::Tree(t) => t.serialize(),
            Contents::Commit(c) => c.serialize(),
        }
    }
}

/// An object: its contents and the size of its payload.
pub struct Object {
    /// The length of the payload, not counting the header.
    pub size: usize,
    pub contents: Contents,
}

impl Object {
    /// The size matches the payload and tree entries hold valid hashes.
    pub open spec fn wf(&self) -> bool {
        self.contents.wf() && self.size == self.contents.payload().len()
    }

    /// The canonical encoding of this object.
    pub open spec fn encoded(&self) -> Seq<u8> {
        encoded_object(self.contents.kind_of(), self.contents.payload())
    }

    /// A blob object wrapping the given bytes.
    pub fn new_blob(contents: &[u8]) -> (r: Object)
        ensures
            r.wf(),
            r.size == contents@.len(),
            r.contents is Blob,
            r.contents->Blob_0.0@ == contents@,
    {
        Object { size: contents.len(), contents: Contents::Blob(BlobContents::new(contents)) }
    }

    /// Reads `<kind> <size>\0<payload>`: the kind must be `blob`, `tree` or
    /// `commit` (else `InvalidKind`), the size ASCII digits that match the
    /// payload's length (else `CorruptObject`); the payload is then parsed by
    /// kind.
    pub fn parse(body: &[u8]) -> (r: Result<Object, ObjectError>)
        ensures
            object_parsed(body@, r),
    {
        let n = body.len();
        let sp_pat: Vec<u8> = vec![32u8];
        let nul_pat: Vec<u8> = vec![0u8];
        assert(sp_pat@ =~= seq![32u8]);
        assert(nul_pat@ =~= seq![0u8]);
        assert(body@.subrange(0, n as int) =~= body@);
        let sp = match find_in(body, 0, n, sp_pat.as_slice()) {
            Some(sp) => sp,
            None => return Err(ObjectError::CorruptObject(None)),
        };
        proof {
            crate::bytes::lemma_find_in_range(body@, sp_pat@);
            assert(body@.take(sp as int) =~= body@.subrange(0, sp as int));
            assert(body@.skip(sp + 1) =~= body@.subrange(sp + 1, n as int));
        }
        let kind = match ObjectKind::parse(&body[0..sp]) {
            Ok(k) => k,
            Err(e) => return Err(e),
        };
        let z = match find_in(body, sp + 1, n, nul_pat.as_slice()) {
            Some(z) => z,
            None => return Err(ObjectError::CorruptObject(None)),
        };
        proof {
            crate::bytes::lemma_find_in_range(body@.subrange(sp + 1, n as int), nul_pat@);
        }
        let size = match parse_decimal(body, sp + 1, z, usize::MAX as u64) {
            Some(v) => v as usize,
            None => return Err(ObjectError::CorruptObject(None)),
        };
        if n - (z + 1) != size {
            return Err(ObjectError::CorruptObject(Some(size)));
        }
        assert(body@.skip(z + 1) =~= body@.subrange(z + 1, n as int));
        match Contents::parse(kind, &body[z + 1..n]) {
            Ok(contents) => Ok(Object { size, contents }),
            Err(e) => Err(e),
        }
    }

    /// The kind of the object, read from its contents.
    pub fn kind(&self) -> (r: ObjectKind)
        ensures
            r == self.contents.kind_of(),
    {
        match self.contents {
            Contents::Blob(_) => ObjectKind::Blob,
            Contents::Tree(_) => ObjectKind::Tree,
            Contents::Commit(_) => ObjectKind::Commit,
        }
    }

    /// `<kind> <size>\0<payload>`.
    pub fn encode(&self) -> (r: Vec<u8>)
        requires
            self.wf(),
        ensures
            r@ == self.encoded(),
    {
        let mut out: Vec<u8> = Vec::new();
        match self.kind() {
            ObjectKind::Blob => {
                out.push(98u8);
                out.push(108u8);
                out.push(111u8);
                out.push(98u8);
            },
            ObjectKind::Tree => {
                out.push(116u8);
                out.push(114u8);
                out.push(101u8);
                out.push(101u8);
            },
            ObjectKind::Commit => {
                out.push(99u8);
                out.push(111u8);
                out.push(109u8);
                out.push(109u8);
                out.push(105u8);
                out.push(116u8);
            },
        }
        assert(out@ =~= kind_token(self.contents.kind_of()));
        out.push(32u8);
        push_decimal(&mut out, self.size as u64);
        out.push(0u8);
        let payload = self.contents.serialize();
        push_all(&mut out, payload.as_slice());
        assert(out@ =~= self.encoded());
        out
    }

    /// The hash of the object: the SHA-1 digest of its canonical encoding as
    /// 40 lower-case hexadecimal digits.
    pub fn compute_hash(&self) -> (r: String)
        requires
            self.wf(),
        ensures
            r@ == hex_of(sha1_of(self.encoded())),
            r@.len() == 40,
            is_hex_text(r@),
    {
        let bytes = self.encode();
        digest_hex(bytes.as_slice())
    }
}

proof fn lemma_kind_token(k: ObjectKind)
    ensures
        kind_of_token(kind_token(k)) == Some(k),
        !kind_token(k).contains(32u8),
{
    let t = kind_token(k);
    match k {
        ObjectKind::Blob => {},
        ObjectKind::Tree => {
            assert(t[0] != kind_token(ObjectKind::Blob)[0]);
        },
        ObjectKind::Commit => {
            assert(t.len() != kind_token(ObjectKind::Blob).len());
            assert(t.len() != kind_token(ObjectKind::Tree).len());
        },
    }
    if t.contains(32u8) {
        let i = choose|i: int| 0 <= i < t.len() && t[i] == 32u8;
        assert(t[i] != 32u8);
    }
}

/// The header of an encoded object gives back its kind, and the payload
/// follows it.
pub proof fn lemma_header_of_encoded(k: ObjectKind, payload: Seq<u8>)
    requires
        payload.len() <= usize::MAX,
    ensures
        parse_header(encoded_object(k, payload)) == Ok::<(ObjectKind, int), HeaderFault>(
            (k, kind_token(k).len() + decimal_bytes(payload.len()).len() + 2 as int),
        ),
        encoded_object(k, payload).skip(
            kind_token(k).len() + decimal_bytes(payload.len()).len() + 2 as int,
        ) == payload,
{
    let t = kind_token(k);
    let d = decimal_bytes(payload.len());
    let e = encoded_object(k, payload);
    let tl = t.len() as int;
    let dl = d.len() as int;
    lemma_kind_token(k);
    lemma_decimal_bytes(payload.len());
    assert(e =~= t + seq![32u8] + (d + seq![0u8] + payload));
    lemma_find_byte_after(t, 32u8, d + seq![0u8] + payload);
    assert(e.take(t.len() as int) =~= t);
    assert(e.skip(tl + 1) =~= d + seq![0u8] + payload);
    lemma_find_byte_after(d, 0u8, payload);
    assert(e.subrange(tl + 1, tl + 1 + dl) =~= d);
    assert(e.skip(tl + dl + 2) =~= payload);
}

/// What saving and loading is proved to keep: any blob; a tree whose
/// entries name their objects by 40 hexadecimal digits and have modes with
/// no space and names with no NUL byte; a commit read from a well-formed
/// payload.
pub open spec fn storable(o: Object) -> bool {
    match o.contents {
        Contents::Blob(_) => true,
        Contents::Tree(t) => forall|i: int| 0 <= i < t@.len() ==> row_storable(#[trigger] t@[i]),
        Contents::Commit(c) => exists|p: Seq<u8>|
            commit_well_formed(p) && #[trigger] parse_commit(p) == Ok::<
                crate::commit::CommitModel,
                ObjectError,
            >(c@),
    }
}

/// Loading the canonical encoding of a storable object (what its file holds
/// once inflated) gives an object of the same kind and size with the same
/// canonical encoding, and so the same hash.
pub proof fn lemma_save_load(o: Object, loaded: Result<Object, ObjectError>)
    requires
        o.wf(),
        storable(o),
        object_parsed(o.encoded(), loaded),
    ensures
        loaded is Ok,
        loaded->Ok_0.wf(),
        loaded->Ok_0.contents.kind_of() == o.contents.kind_of(),
        loaded->Ok_0.size == o.size,
        loaded->Ok_0.encoded() == o.encoded(),
{
    let k = o.contents.kind_of();
    let payload = o.contents.payload();
    lemma_header_of_encoded(k, payload);
    match o.contents {
        Contents::Blob(_) => {},
        Contents::Tree(t) => {
            lemma_parse_tree_payload(t@);
            lemma_parse_tree_hashes(payload);
            lemma_parsed_rows_wf(parse_tree(payload)->Ok_0);
        },
        Contents::Commit(c) => {
            let p = choose|p: Seq<u8>|
                commit_well_formed(p) && #[trigger] parse_commit(p) == Ok::<
                    crate::commit::CommitModel,
                    ObjectError,
                >(c@);
            lemma_commit_round_trip(p);
        },
    }
}

} // verus!
