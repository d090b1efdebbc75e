//! Commit objects: a root tree, parents, authorship, an optional signature
//! block and a free-text message.

use vstd::prelude::*;
use vstd::utf8::{encode_utf8, valid_utf8};

use crate::bytes::{
    all_digits, decimal, decimal_bytes, digits_value, find_in, find_seq, line_ranges, parse_decimal,
    push_all, push_decimal,
    split_lines, starts_at, starts_with,
};
use crate::error::ObjectError;
use crate::text::{ascii_boundary, lemma_utf8_range, text_between, text_of, utf8_string};

verus! {

/// An author or committer line, as the bytes it was read from.
pub struct AuthorModel {
    pub name: Seq<u8>,
    pub email: Seq<u8>,
    pub timestamp: u32,
    pub timezone: Seq<u8>,
}

/// A commit, with every text field as the bytes it was read from.
pub struct CommitModel {
    pub raw: Seq<u8>,
    pub tree: Seq<u8>,
    pub parents: Seq<Seq<u8>>,
    pub author: AuthorModel,
    pub committer: Option<AuthorModel>,
    pub gpgsig: Option<Seq<u8>>,
    pub message: Seq<u8>,
}

/// The start of the line that names the root tree.
pub open spec fn tree_tag() -> Seq<u8> {
    seq![116u8, 114u8, 101u8, 101u8, 32u8]
}

/// The start of a line that names a parent commit.
pub open spec fn parent_tag() -> Seq<u8> {
    seq![112u8, 97u8, 114u8, 101u8, 110u8, 116u8, 32u8]
}

/// The start of the author line.
pub open spec fn author_tag() -> Seq<u8> {
    seq![97u8, 117u8, 116u8, 104u8, 111u8, 114u8, 32u8]
}

/// The start of the committer line.
pub open spec fn committer_tag() -> Seq<u8> {
    seq![99u8, 111u8, 109u8, 109u8, 105u8, 116u8, 116u8, 101u8, 114u8, 32u8]
}

/// The start of the first line of a signature block.
pub open spec fn gpgsig_tag() -> Seq<u8> {
    seq![103u8, 112u8, 103u8, 115u8, 105u8, 103u8]
}

/// What the first line of a signature block must contain.
pub open spec fn begin_marker() -> Seq<u8> {
    seq![45u8, 45u8, 66u8, 69u8, 71u8, 73u8, 78u8, 32u8, 80u8, 71u8, 80u8, 32u8, 83u8, 73u8, 71u8, 78u8, 65u8, 84u8, 85u8, 82u8, 69u8, 45u8, 45u8]
}

/// What the last line of a signature block contains.
pub open spec fn end_marker() -> Seq<u8> {
    seq![45u8, 45u8, 69u8, 78u8, 68u8, 32u8, 80u8, 71u8, 80u8, 32u8, 83u8, 73u8, 71u8, 78u8, 65u8, 84u8, 85u8, 82u8, 69u8, 45u8, 45u8]
}

/// The digits of an unsigned number, which may carry a leading `+`.
pub open spec fn unsigned_digits(s: Seq<u8>) -> Seq<u8> {
    if s.len() > 0 && s[0] == 43u8 {
        s.skip(1)
    } else {
        s
    }
}

/// The digits of a signed number, which may carry a leading `+` or `-`.
pub open spec fn signed_digits(s: Seq<u8>) -> Seq<u8> {
    if s.len() > 0 && (s[0] == 43u8 || s[0] == 45u8) {
        s.skip(1)
    } else {
        s
    }
}

/// A time zone offset is a signed number strictly between -2400 and 2400.
pub open spec fn timezone_ok(s: Seq<u8>) -> bool {
    decimal(signed_digits(s), 2399) is Some
}

/// Reads `<name> <<email>> <timestamp> <timezone>`: each part ends at the first
/// occurrence of its delimiter.
pub open spec fn parse_author(line: Seq<u8>) -> Option<AuthorModel> {
    match find_seq(line, seq![32u8, 60u8]) {
        None => None,
        Some(i) => author_after_name(line.take(i), line.skip(i + 2)),
    }
}

/// The rest of an author line once the name and ` <` are read.
pub open spec fn author_after_name(name: Seq<u8>, rest: Seq<u8>) -> Option<AuthorModel> {
    match find_seq(rest, seq![62u8, 32u8]) {
        None => None,
        Some(j) => author_after_email(name, rest.take(j), rest.skip(j + 2)),
    }
}

/// The rest of an author line once the email and `> ` are read.
pub open spec fn author_after_email(name: Seq<u8>, email: Seq<u8>, tail: Seq<u8>) -> Option<
    AuthorModel,
> {
    match find_seq(tail, seq![32u8]) {
        None => None,
        Some(k) => author_fields(name, email, tail.take(k), tail.skip(k + 1)),
    }
}

/// An author from its four parts, where the timestamp and time zone are valid.
pub open spec fn author_fields(name: Seq<u8>, email: Seq<u8>, stamp: Seq<u8>, zone: Seq<u8>) -> Option<
    AuthorModel,
> {
    match decimal(unsigned_digits(stamp), 4294967295) {
        None => None,
        Some(t) => if timezone_ok(zone) {
            Some(AuthorModel { name, email, timestamp: t as u32, timezone: zone })
        } else {
            None
        },
    }
}

/// Whether `s` is a hash: 40 lower-case hexadecimal digits.
pub open spec fn is_hash_text(s: Seq<u8>) -> bool {
    s.len() == 40 && forall|i: int|
        0 <= i < s.len() ==> (48 <= #[trigger] s[i] <= 57 || 97 <= s[i] <= 102)
}

/// How many lines from index `i` on start with `parent `.
pub open spec fn parent_count(lines: Seq<Seq<u8>>, i: int) -> nat
    decreases lines.len() - i,
{
    if 0 <= i < lines.len() && starts_with(lines[i], parent_tag()) {
        1 + parent_count(lines, i + 1)
    } else {
        0
    }
}

/// The last line of a signature block whose continuation lines start at `j`:
/// the first one that holds the end marker, where every line up to it starts
/// with a space.
pub open spec fn signature_end(lines: Seq<Seq<u8>>, j: int) -> Option<int>
    decreases lines.len() - j,
{
    if j < 0 || j >= lines.len() {
        None
    } else if !starts_with(lines[j], seq![32u8]) {
        None
    } else if find_seq(lines[j], end_marker()) is Some {
        Some(j)
    } else {
        signature_end(lines, j + 1)
    }
}

/// Lines `from..to`, each preceded by a newline.
pub open spec fn joined_lines(lines: Seq<Seq<u8>>, from: int, to: int) -> Seq<u8>
    decreases to - from,
{
    if to <= from {
        Seq::empty()
    } else {
        joined_lines(lines, from, to - 1) + seq![10u8] + lines[to - 1]
    }
}

/// The first line of a signature block starts with `gpgsig` and one more
/// character, and holds the begin marker.
pub open spec fn signature_start_ok(line: Seq<u8>) -> bool {
    &&& starts_with(line, gpgsig_tag())
    &&& line.len() > 6
    &&& find_seq(line, begin_marker()) is Some
}

/// What the first line of a signature block holds after `gpgsig` and the
/// character that follows it.
pub open spec fn signature_first(line: Seq<u8>) -> Seq<u8> {
    line.skip(6 + vstd::utf8::length_of_first_scalar(line.skip(6)))
}

/// The parents named by the lines after the first.
pub open spec fn parents_of(lines: Seq<Seq<u8>>) -> Seq<Seq<u8>> {
    Seq::new(parent_count(lines, 1), |i: int| lines[1 + i].skip(7))
}

/// The committer, where the line after the author line names one.
pub open spec fn committer_of(lines: Seq<Seq<u8>>, c: int) -> Option<AuthorModel> {
    if c < lines.len() && starts_with(lines[c], committer_tag()) {
        parse_author(lines[c].skip(10))
    } else {
        None
    }
}

/// What a commit payload holds, or the first rule of the grammar that it breaks.
pub open spec fn parse_commit(body: Seq<u8>) -> Result<CommitModel, ObjectError> {
    if !valid_utf8(body) {
        Err(ObjectError::NotUtf8)
    } else {
        match find_seq(body, seq![10u8, 10u8]) {
            None => Err(ObjectError::MissingMessage),
            Some(k) => {
                let lines = split_lines(body.take(k));
                let a: int = 1 + parent_count(lines, 1) as int;
                let c: int = a + 1;
                let g: int = if c < lines.len() && starts_with(lines[c], committer_tag()) {
                    c + 1
                } else {
                    c
                };
                if !(starts_with(lines[0], tree_tag()) && is_hash_text(lines[0].skip(5))) {
                    Err(ObjectError::MissingTree)
                } else if a >= lines.len() || !starts_with(lines[a], author_tag()) {
                    Err(ObjectError::MissingAuthor)
                } else if parse_author(lines[a].skip(7)) is None {
                    Err(ObjectError::InvalidAuthor)
                } else if c < lines.len() && starts_with(lines[c], committer_tag()) && parse_author(
                    lines[c].skip(10),
                ) is None {
                    Err(ObjectError::InvalidCommit)
                } else {
                    let head = CommitModel {
                        raw: body,
                        tree: lines[0].skip(5),
                        parents: parents_of(lines),
                        author: parse_author(lines[a].skip(7))->0,
                        committer: committer_of(lines, c),
                        gpgsig: None,
                        message: body.skip(k + 2),
                    };
                    if g >= lines.len() {
                        Ok(head)
                    } else if !signature_start_ok(lines[g]) {
                        Err(ObjectError::InvalidCommit)
                    } else {
                        match signature_end(lines, g + 1) {
                            None => Err(ObjectError::InvalidCommit),
                            Some(e) => Ok(
                                CommitModel {
                                    gpgsig: Some(
                                        signature_first(lines[g]) + joined_lines(
                                            lines,
                                            g + 1,
                                            e + 1,
                                        ),
                                    ),
                                    ..head
                                },
                            ),
                        }
                    }
                }
            },
        }
    }
}

fn tree_tag_bytes() -> (r: Vec<u8>)
    ensures
        r@ == tree_tag(),
{
    vec![116u8, 114u8, 101u8, 101u8, 32u8]
}

fn parent_tag_bytes() -> (r: Vec<u8>)
    ensures
        r@ == parent_tag(),
{
    vec![112u8, 97u8, 114u8, 101u8, 110u8, 116u8, 32u8]
}

fn author_tag_bytes() -> (r: Vec<u8>)
    ensures
        r@ == author_tag(),
{
    vec![97u8, 117u8, 116u8, 104u8, 111u8, 114u8, 32u8]
}

fn committer_tag_bytes() -> (r: Vec<u8>)
    ensures
        r@ == committer_tag(),
{
    vec![99u8, 111u8, 109u8, 109u8, 105u8, 116u8, 116u8, 101u8, 114u8, 32u8]
}

fn gpgsig_tag_bytes() -> (r: Vec<u8>)
    ensures
        r@ == gpgsig_tag(),
{
    vec![103u8, 112u8, 103u8, 115u8, 105u8, 103u8]
}

fn begin_marker_bytes() -> (r: Vec<u8>)
    ensures
        r@ == begin_marker(),
{
    vec![45u8, 45u8, 66u8, 69u8, 71u8, 73u8, 78u8, 32u8, 80u8, 71u8, 80u8, 32u8, 83u8, 73u8, 71u8, 78u8, 65u8, 84u8, 85u8, 82u8, 69u8, 45u8, 45u8]
}

fn end_marker_bytes() -> (r: Vec<u8>)
    ensures
        r@ == end_marker(),
{
    vec![45u8, 45u8, 69u8, 78u8, 68u8, 32u8, 80u8, 71u8, 80u8, 32u8, 83u8, 73u8, 71u8, 78u8, 65u8, 84u8, 85u8, 82u8, 69u8, 45u8, 45u8]
}

/// Who made a change and when.
pub struct Author {
    pub name: String,
    pub email: String,
    /// Seconds since the epoch.
    pub timestamp: u32,
    /// The offset as it was written, such as `+0100`.
    pub timezone: String,
}

impl View for Author {
    type V = AuthorModel;

    open spec fn view(&self) -> AuthorModel {
        AuthorModel {
            name: encode_utf8(self.name@),
            email: encode_utf8(self.email@),
            timestamp: self.timestamp,
            timezone: encode_utf8(self.timezone@),
        }
    }
}

/// The model of an optional author.
pub open spec fn author_view(a: Option<Author>) -> Option<AuthorModel> {
    match a {
        Some(x) => Some(x@),
        None => None,
    }
}

/// The bytes of an optional text.
pub open spec fn text_view(t: Option<String>) -> Option<Seq<u8>> {
    match t {
        Some(x) => Some(encode_utf8(x@)),
        None => None,
    }
}

/// A parsed commit.
pub struct CommitContents {
    /// The whole payload as text.
    pub raw: String,
    /// The hash of the root tree.
    pub tree: String,
    /// The hashes of the parent commits, in order; empty for a root commit.
    pub parents: Vec<String>,
    pub author: Author,
    pub committer: Option<Author>,
    /// The signature block, its lines joined by newlines.
    pub gpgsig: Option<String>,
    /// Everything after the first blank line.
    pub message: String,
}

impl View for CommitContents {
    type V = CommitModel;

    open spec fn view(&self) -> CommitModel {
        CommitModel {
            raw: encode_utf8(self.raw@),
            tree: encode_utf8(self.tree@),
            parents: self.parents@.map_values(|p: String| encode_utf8(p@)),
            author: self.author@,
            committer: author_view(self.committer),
            gpgsig: text_view(self.gpgsig),
            message: encode_utf8(self.message@),
        }
    }
}

/// Whether `b[from..to]` is a hash.
fn is_hash_at(b: &[u8], from: usize, to: usize) -> (r: bool)
    requires
        from <= to <= b@.len(),
    ensures
        r == is_hash_text(b@.subrange(from as int, to as int)),
{
    if to - from != 40 {
        return false;
    }
    let mut i: usize = from;
    while i < to
        invariant
            from <= i <= to <= b@.len(),
            to - from == 40,
            forall|j: int| from <= j < i ==> (48 <= #[trigger] b@[j] <= 57 || 97 <= b@[j] <= 102),
        decreases to - i,
    {
        let x = b[i];
        if !((48 <= x && x <= 57) || (97 <= x && x <= 102)) {
            assert(b@.subrange(from as int, to as int)[i - from] == x);
            return false;
        }
        i = i + 1;
    }
    assert forall|j: int| 0 <= j < 40 implies (48 <= #[trigger] b@.subrange(
        from as int,
        to as int,
    )[j] <= 57 || 97 <= b@.subrange(from as int, to as int)[j] <= 102) by {
        assert(b@.subrange(from as int, to as int)[j] == b@[from + j]);
    }
    true
}

/// Reads an author line held in `b[from..to]`.
fn author_at(b: &[u8], from: usize, to: usize) -> (r: Result<Author, ObjectError>)
    requires
        valid_utf8(b@),
        from <= to <= b@.len(),
        ascii_boundary(b@, from as int),
        ascii_boundary(b@, to as int),
    ensures
        match parse_author(b@.subrange(from as int, to as int)) {
            Some(m) => r is Ok && r->Ok_0@ == m,
            None => r == Err::<Author, ObjectError>(ObjectError::InvalidAuthor),
        },
{
    let ghost line = b@.subrange(from as int, to as int);
    let lt: Vec<u8> = vec![32u8, 60u8];
    assert(lt@ =~= seq![32u8, 60u8]);
    let i = match find_in(b, from, to, lt.as_slice()) {
        Some(i) => i,
        None => return Err(ObjectError::InvalidAuthor),
    };
    proof {
        crate::bytes::lemma_find_in_range(line, lt@);
        assert(line.subrange(i - from, i - from + 2)[0] == b@[i as int]);
        assert(line.subrange(i - from, i - from + 2)[1] == b@[i + 1]);
        assert(line.skip(i - from + 2) =~= b@.subrange(i + 2, to as int));
        assert(line.take(i - from) =~= b@.subrange(from as int, i as int));
    }
    after_name_at(b, from, i, to)
}

/// Reads the part of an author line after `b[from..i]` and ` <`.
fn after_name_at(b: &[u8], from: usize, i: usize, to: usize) -> (r: Result<Author, ObjectError>)
    requires
        valid_utf8(b@),
        from <= i,
        i + 2 <= to <= b@.len(),
        ascii_boundary(b@, from as int),
        ascii_boundary(b@, to as int),
        b@[i as int] == 32,
        b@[i + 1] == 60,
    ensures
        match author_after_name(
            b@.subrange(from as int, i as int),
            b@.subrange(i + 2, to as int),
        ) {
            Some(m) => r is Ok && r->Ok_0@ == m,
            None => r == Err::<Author, ObjectError>(ObjectError::InvalidAuthor),
        },
{
    let ghost rest = b@.subrange(i + 2, to as int);
    let gt: Vec<u8> = vec![62u8, 32u8];
    assert(gt@ =~= seq![62u8, 32u8]);
    let j = match find_in(b, i + 2, to, gt.as_slice()) {
        Some(j) => j,
        None => return Err(ObjectError::InvalidAuthor),
    };
    proof {
        crate::bytes::lemma_find_in_range(rest, gt@);
        assert(rest.subrange(j - i - 2, j - i)[0] == b@[j as int]);
        assert(rest.subrange(j - i - 2, j - i)[1] == b@[j + 1]);
        assert(rest.skip(j - i) =~= b@.subrange(j + 2, to as int));
        assert(rest.take(j - i - 2) =~= b@.subrange(i + 2, j as int));
    }
    after_email_at(b, from, i, j, to)
}

/// Reads the timestamp and time zone of an author line whose name is
/// `b[from..i]` and whose email is `b[i + 2..j]`.
fn after_email_at(b: &[u8], from: usize, i: usize, j: usize, to: usize) -> (r: Result<
    Author,
    ObjectError,
>)
    requires
        valid_utf8(b@),
        from <= i,
        i + 2 <= j,
        j + 2 <= to <= b@.len(),
        ascii_boundary(b@, from as int),
        ascii_boundary(b@, to as int),
        b@[i as int] == 32,
        b@[i + 1] == 60,
        b@[j as int] == 62,
        b@[j + 1] == 32,
    ensures
        match author_after_email(
            b@.subrange(from as int, i as int),
            b@.subrange(i + 2, j as int),
            b@.subrange(j + 2, to as int),
        ) {
            Some(m) => r is Ok && r->Ok_0@ == m,
            None => r == Err::<Author, ObjectError>(ObjectError::InvalidAuthor),
        },
{
    let ghost tail = b@.subrange(j + 2, to as int);
    let sp: Vec<u8> = vec![32u8];
    assert(sp@ =~= seq![32u8]);
    let k = match find_in(b, j + 2, to, sp.as_slice()) {
        Some(k) => k,
        None => return Err(ObjectError::InvalidAuthor),
    };
    proof {
        crate::bytes::lemma_find_in_range(tail, sp@);
        assert(tail.subrange(k - j - 2, k - j - 1)[0] == b@[k as int]);
        assert(tail.skip(k - j - 1) =~= b@.subrange(k + 1, to as int));
        assert(tail.take(k - j - 2) =~= b@.subrange(j + 2, k as int));
    }
    let ds: usize = if k > j + 2 && b[j + 2] == 43u8 {
        j + 3
    } else {
        j + 2
    };
    proof {
        assert(unsigned_digits(b@.subrange(j + 2, k as int)) =~= b@.subrange(ds as int, k as int));
    }
    let timestamp = match parse_decimal(b, ds, k, 4294967295) {
        Some(t) => t as u32,
        None => return Err(ObjectError::InvalidAuthor),
    };
    let zs: usize = if k + 1 < to && (b[k + 1] == 43u8 || b[k + 1] == 45u8) {
        k + 2
    } else {
        k + 1
    };
    proof {
        assert(signed_digits(b@.subrange(k + 1, to as int)) =~= b@.subrange(zs as int, to as int));
    }
    if parse_decimal(b, zs, to, 2399).is_none() {
        return Err(ObjectError::InvalidAuthor);
    }
    Ok(
        Author {
            name: text_between(b, from, i),
            email: text_between(b, i + 2, j),
            timestamp,
            timezone: text_between(b, k + 1, to),
        },
    )
}

impl Author {
    /// Appends `<name> <<email>> <timestamp> <timezone>`.
    pub fn serialize_into(&self, out: &mut Vec<u8>)
        ensures
            final(out)@ == old(out)@ + author_bytes(self@),
    {
        push_all(out, self.name.as_str().as_bytes());
        out.push(32u8);
        out.push(60u8);
        push_all(out, self.email.as_str().as_bytes());
        out.push(62u8);
        out.push(32u8);
        push_decimal(out, self.timestamp as u64);
        out.push(32u8);
        push_all(out, self.timezone.as_str().as_bytes());
        proof {
            assert(final(out)@ =~= old(out)@ + author_bytes(self@));
        }
    }

    /// Reads `<name> <<email>> <timestamp> <timezone>`; fails with
    /// `InvalidAuthor` where a delimiter is missing, the timestamp is not an
    /// unsigned 32-bit number or the time zone is out of range.
    pub fn parse(line: &str) -> (r: Result<Author, ObjectError>)
        ensures
            match parse_author(encode_utf8(line@)) {
                Some(m) => r is Ok && r->Ok_0@ == m,
                None => r == Err::<Author, ObjectError>(ObjectError::InvalidAuthor),
            },
    {
        let b = line.as_bytes();
        proof {
            vstd::utf8::encode_utf8_valid_utf8(line@);
            assert(b@.subrange(0, b@.len() as int) =~= b@);
        }
        author_at(b, 0, b.len())
    }
}

/// `<name> <<email>> <timestamp> <timezone>`.
pub open spec fn author_bytes(a: AuthorModel) -> Seq<u8> {
    a.name + seq![32u8, 60u8] + a.email + seq![62u8, 32u8] + decimal_bytes(a.timestamp as nat)
        + seq![32u8] + a.timezone
}

/// One `parent <hash>` line for each parent, in order.
pub open spec fn parent_lines(ps: Seq<Seq<u8>>) -> Seq<u8>
    decreases ps.len(),
{
    if ps.len() == 0 {
        Seq::empty()
    } else {
        parent_lines(ps.drop_last()) + parent_tag() + ps.last() + seq![10u8]
    }
}

/// The optional committer line.
pub open spec fn committer_line(c: Option<AuthorModel>) -> Seq<u8> {
    match c {
        Some(x) => committer_tag() + author_bytes(x) + seq![10u8],
        None => Seq::empty(),
    }
}

/// The optional signature block.
pub open spec fn signature_lines(g: Option<Seq<u8>>) -> Seq<u8> {
    match g {
        Some(x) => gpgsig_tag() + seq![32u8] + x + seq![10u8],
        None => Seq::empty(),
    }
}

/// The payload a commit is stored as: its metadata lines in order, a blank
/// line and the message.
pub open spec fn commit_payload(c: CommitModel) -> Seq<u8> {
    tree_tag() + c.tree + seq![10u8] + parent_lines(c.parents) + author_tag() + author_bytes(c.author)
        + seq![10u8] + committer_line(c.committer) + signature_lines(c.gpgsig) + seq![10u8]
        + c.message
}

/// Facts about the line ranges of a commit's metadata `b[0..k]`, where
/// `b[k..k + 2]` is the blank line.
pub open spec fn lines_of(b: Seq<u8>, k: int, lr: Seq<(usize, usize)>) -> bool {
    &&& 0 <= k
    &&& k + 2 <= b.len()
    &&& b[k] == 10
    &&& b[k + 1] == 10
    &&& lr.len() == split_lines(b.take(k)).len()
    &&& lr.len() >= 1
    &&& forall|i: int|
        0 <= i < lr.len() ==> {
            &&& (#[trigger] lr[i]).0 <= lr[i].1 <= k
            &&& b.subrange(lr[i].0 as int, lr[i].1 as int) == split_lines(b.take(k))[i]
            &&& ascii_boundary(b, lr[i].0 as int)
            &&& ascii_boundary(b, lr[i].1 as int)
        }
}

impl CommitContents {
    /// The payload this commit is stored as.
    pub fn serialize(&self) -> (r: Vec<u8>)
        ensures
            r@ == commit_payload(self@),
    {
        let mut out = tree_tag_bytes();
        push_all(&mut out, self.tree.as_str().as_bytes());
        out.push(10u8);
        let ptag = parent_tag_bytes();
        let ghost start = out@;
        let mut i: usize = 0;
        while i < self.parents.len()
            invariant
                i <= self.parents@.len(),
                ptag@ == parent_tag(),
                out@ == start + parent_lines(self@.parents.take(i as int)),
            decreases self.parents@.len() - i,
        {
            push_all(&mut out, ptag.as_slice());
            push_all(&mut out, self.parents[i].as_str().as_bytes());
            out.push(10u8);
            proof {
                let t = self@.parents.take(i + 1);
                assert(t.drop_last() =~= self@.parents.take(i as int));
                assert(t.last() == encode_utf8(self.parents@[i as int]@));
                assert(out@ =~= start + parent_lines(t));
            }
            i = i + 1;
        }
        assert(self@.parents.take(i as int) =~= self@.parents);
        let atag = author_tag_bytes();
        push_all(&mut out, atag.as_slice());
        self.author.serialize_into(&mut out);
        out.push(10u8);
        let ghost before_committer = out@;
        match &self.committer {
            Some(c) => {
                let ctag = committer_tag_bytes();
                push_all(&mut out, ctag.as_slice());
                c.serialize_into(&mut out);
                out.push(10u8);
            },
            None => {},
        }
        assert(out@ =~= before_committer + committer_line(self@.committer));
        let ghost before_signature = out@;
        match &self.gpgsig {
            Some(g) => {
                let gtag = gpgsig_tag_bytes();
                push_all(&mut out, gtag.as_slice());
                out.push(32u8);
                push_all(&mut out, g.as_str().as_bytes());
                out.push(10u8);
            },
            None => {},
        }
        assert(out@ =~= before_signature + signature_lines(self@.gpgsig));
        out.push(10u8);
        push_all(&mut out, self.message.as_str().as_bytes());
        assert(out@ =~= commit_payload(self@));
        out
    }

    /// Reads a commit payload: UTF-8 text whose metadata lines, up to the
    /// first blank line, are a `tree` line, any `parent` lines, an `author`
    /// line, an optional `committer` line and an optional signature block;
    /// the rest is the message.
    pub fn parse(body: &[u8]) -> (r: Result<CommitContents, ObjectError>)
        ensures
            match parse_commit(body@) {
                Ok(m) => r is Ok && r->Ok_0@ == m,
                Err(e) => r == Err::<CommitContents, ObjectError>(e),
            },
    {
        let raw = match utf8_string(body) {
            Some(s) => s,
            None => return Err(ObjectError::NotUtf8),
        };
        let nl2: Vec<u8> = vec![10u8, 10u8];
        assert(nl2@ =~= seq![10u8, 10u8]);
        let k = match find_in(body, 0, body.len(), nl2.as_slice()) {
            Some(k) => k,
            None => {
                assert(body@.subrange(0, body@.len() as int) =~= body@);
                return Err(ObjectError::MissingMessage);
            },
        };
        proof {
            assert(body@.subrange(0, body@.len() as int) =~= body@);
            crate::bytes::lemma_find_in_range(body@, nl2@);
            assert(body@.subrange(k as int, k + 2)[0] == body@[k as int]);
            assert(body@.subrange(k as int, k + 2)[1] == body@[k + 1]);
            assert(body@.subrange(0, k as int) =~= body@.take(k as int));
        }
        let lr = line_ranges(body, 0, k);
        proof {
            let lines = split_lines(body@.take(k as int));
            assert(lines.len() >= 1);
            assert forall|i: int| 0 <= i < lr@.len() implies ascii_boundary(
                body@,
                (#[trigger] lr@[i]).0 as int,
            ) && ascii_boundary(body@, lr@[i].1 as int) by {
                if lr@[i].0 > 0 {
                    assert(body@[lr@[i].0 - 1] == 10);
                }
            }
        }
        CommitContents::parse_lines(body, k, &lr, raw)
    }

    /// Reads the metadata lines whose ranges are `lr`: the tree line and the
    /// parent lines here, the rest in `parse_people`.
    fn parse_lines(body: &[u8], k: usize, lr: &Vec<(usize, usize)>, raw: String) -> (r: Result<
        CommitContents,
        ObjectError,
    >)
        requires
            valid_utf8(body@),
            encode_utf8(raw@) == body@,
            find_seq(body@, seq![10u8, 10u8]) == Some(k as int),
            lines_of(body@, k as int, lr@),
        ensures
            match parse_commit(body@) {
                Ok(m) => r is Ok && r->Ok_0@ == m,
                Err(e) => r == Err::<CommitContents, ObjectError>(e),
            },
    {
        let ghost lines = split_lines(body@.take(k as int));
        let tag = tree_tag_bytes();
        let (s0, e0) = lr[0];
        assert(lr@[0].0 <= lr@[0].1);
        if !starts_at(body, s0, e0, tag.as_slice()) {
            return Err(ObjectError::MissingTree);
        }
        proof {
            assert(body@.subrange(s0 as int, s0 + 5)[4] == 32);
            assert(lines[0].skip(5) =~= body@.subrange(s0 + 5, e0 as int));
        }
        if !is_hash_at(body, s0 + 5, e0) {
            return Err(ObjectError::MissingTree);
        }
        let tree = text_between(body, s0 + 5, e0);
        let ptag = parent_tag_bytes();
        let mut parents: Vec<String> = Vec::new();
        let mut idx: usize = 1;
        while idx < lr.len() && starts_at(body, lr[idx].0, lr[idx].1, ptag.as_slice())
            invariant
                1 <= idx <= lr@.len(),
                valid_utf8(body@),
                ptag@ == parent_tag(),
                lines == split_lines(body@.take(k as int)),
                lines_of(body@, k as int, lr@),
                parents@.len() == idx - 1,
                parent_count(lines, 1) == (idx - 1) + parent_count(lines, idx as int),
                forall|p: int|
                    0 <= p < parents@.len() ==> encode_utf8((#[trigger] parents@[p])@)
                        == lines[1 + p].skip(7),
            decreases lr@.len() - idx,
        {
            let (a, e) = lr[idx];
            assert(lr@[idx as int].0 <= lr@[idx as int].1);
            proof {
                assert(body@.subrange(a as int, a + 7)[6] == 32);
                assert(lines[idx as int].skip(7) =~= body@.subrange(a + 7, e as int));
            }
            parents.push(text_between(body, a + 7, e));
            idx = idx + 1;
        }
        let ghost pc = parent_count(lines, 1);
        assert(pc == idx - 1);
        assert(parents@.map_values(|p: String| encode_utf8(p@)) =~= parents_of(lines));
        CommitContents::parse_people(body, k, lr, raw, tree, parents, idx)
    }

    /// Reads the author line at index `idx`, then the optional committer
    /// line and signature block.
    #[verifier::rlimit(50)]
    fn parse_people(
        body: &[u8],
        k: usize,
        lr: &Vec<(usize, usize)>,
        raw: String,
        tree: String,
        parents: Vec<String>,
        idx: usize,
    ) -> (r: Result<CommitContents, ObjectError>)
        requires
            valid_utf8(body@),
            encode_utf8(raw@) == body@,
            find_seq(body@, seq![10u8, 10u8]) == Some(k as int),
            lines_of(body@, k as int, lr@),
            starts_with(split_lines(body@.take(k as int))[0], tree_tag()),
            is_hash_text(split_lines(body@.take(k as int))[0].skip(5)),
            encode_utf8(tree@) == split_lines(body@.take(k as int))[0].skip(5),
            parents@.map_values(|p: String| encode_utf8(p@)) == parents_of(
                split_lines(body@.take(k as int)),
            ),
            idx == 1 + parent_count(split_lines(body@.take(k as int)), 1),
        ensures
            match parse_commit(body@) {
                Ok(m) => r is Ok && r->Ok_0@ == m,
                Err(e) => r == Err::<CommitContents, ObjectError>(e),
            },
    {
        let ghost lines = split_lines(body@.take(k as int));
        let atag = author_tag_bytes();
        if idx >= lr.len() {            return Err(ObjectError::MissingAuthor);
        }
        let (sa, ea) = lr[idx];
        assert(lr@[idx as int].0 <= lr@[idx as int].1);
        if !starts_at(body, sa, ea, atag.as_slice()) {
            return Err(ObjectError::MissingAuthor);
        }
        proof {
            assert(body@.subrange(sa as int, sa + 7)[6] == 32);
            assert(lines[idx as int].skip(7) =~= body@.subrange(sa + 7, ea as int));
        }
        let author = match author_at(body, sa + 7, ea) {
            Ok(a) => a,
            Err(_) => return Err(ObjectError::InvalidAuthor),
        };
        let c = idx + 1;
        let mut committer: Option<Author> = None;
        let mut has_committer = false;
        if c < lr.len() {
            let (sc, ec) = lr[c];
            assert(lr@[c as int].0 <= lr@[c as int].1);
            let ctag = committer_tag_bytes();
            if starts_at(body, sc, ec, ctag.as_slice()) {
                proof {
                    assert(body@.subrange(sc as int, sc + 10)[9] == 32);
                    assert(lines[c as int].skip(10) =~= body@.subrange(sc + 10, ec as int));
                }
                match author_at(body, sc + 10, ec) {
                    Ok(a) => {
                        committer = Some(a);
                        has_committer = true;
                    },
                    Err(_) => return Err(ObjectError::InvalidCommit),
                }
            }
        }
        assert(author_view(committer) == committer_of(lines, c as int));
        let blen = body.len();
        assert(k + 2 <= blen);
        let message = text_between(body, k + 2, blen);
        proof {
            assert(body@.subrange(k + 2, body@.len() as int) =~= body@.skip(k + 2));
        }
        let g = if has_committer {
            c + 1
        } else {
            c
        };
        if g >= lr.len() {
            return Ok(
                CommitContents {
                    raw,
                    tree,
                    parents,
                    author,
                    committer,
                    gpgsig: None,
                    message,
                },
            );
        }
        let gpgsig = match signature_at(body, k, lr, g) {
            Ok(s) => s,
            Err(e) => return Err(e),
        };
        Ok(CommitContents { raw, tree, parents, author, committer, gpgsig: Some(gpgsig), message })
    }
}

/// Reads the signature block whose first line is line `g`.
fn signature_at(body: &[u8], k: usize, lr: &Vec<(usize, usize)>, g: usize) -> (r: Result<
    String,
    ObjectError,
>)
    requires
        valid_utf8(body@),
        lines_of(body@, k as int, lr@),
        g < lr@.len(),
    ensures
        ({
            let lines = split_lines(body@.take(k as int));
            if !signature_start_ok(lines[g as int]) {
                r == Err::<String, ObjectError>(ObjectError::InvalidCommit)
            } else {
                match signature_end(lines, g + 1) {
                    None => r == Err::<String, ObjectError>(ObjectError::InvalidCommit),
                    Some(e) => r is Ok && encode_utf8(r->Ok_0@) == signature_first(lines[g as int])
                        + joined_lines(lines, g + 1, e + 1),
                }
            }
        }),
{
    let ghost lines = split_lines(body@.take(k as int));
    let (gs, ge) = lr[g];
    assert(lr@[g as int].0 <= lr@[g as int].1);
    assert(lines[g as int] == body@.subrange(gs as int, ge as int));
    let gtag = gpgsig_tag_bytes();
    let begin = begin_marker_bytes();
    if !starts_at(body, gs, ge, gtag.as_slice()) || ge - gs <= 6 || find_in(
        body,
        gs,
        ge,
        begin.as_slice(),
    ).is_none() {
        return Err(ObjectError::InvalidCommit);
    }
    proof {
        assert(body@.subrange(gs as int, gs + 6)[5] == body@[gs + 5]);
        lemma_utf8_range(body@, gs + 6, ge as int);
        assert(lines[g as int].skip(6) =~= body@.subrange(gs + 6, ge as int));
    }
    let lead = body[gs + 6];
    let width: usize = if lead < 128 {
        1
    } else if lead <= 0xdf {
        2
    } else if lead <= 0xef {
        3
    } else {
        4
    };
    let ghost rest = body@.subrange(gs + 6, ge as int);
    assert(rest[0] == lead);
    assert(width == vstd::utf8::length_of_first_scalar(rest));
    assert(valid_utf8(vstd::utf8::pop_first_scalar(rest)));
    let start = gs + 6 + width;
    let mut sig: Vec<u8> = Vec::new();
    sig.extend_from_slice(&body[start..ge]);
    proof {
        assert(vstd::utf8::pop_first_scalar(rest) =~= body@.subrange(start as int, ge as int));
        assert(signature_first(lines[g as int]) =~= body@.subrange(start as int, ge as int));
        assert(joined_lines(lines, g + 1, g + 1) =~= Seq::<u8>::empty());
        assert(sig@ =~= signature_first(lines[g as int]) + joined_lines(lines, g + 1, g + 1));
    }
    let space: Vec<u8> = vec![32u8];
    assert(space@ =~= seq![32u8]);
    let end = end_marker_bytes();
    let count = lr.len();
    let mut j: usize = g + 1;
    loop
        invariant
            count == lr@.len(),
            g + 1 <= j,
            g < lr@.len(),
            valid_utf8(body@),
            valid_utf8(sig@),
            lines == split_lines(body@.take(k as int)),
            lines_of(body@, k as int, lr@),
            signature_start_ok(lines[g as int]),
            space@ == seq![32u8],
            end@ == end_marker(),
            sig@ == signature_first(lines[g as int]) + joined_lines(lines, g + 1, j as int),
            signature_end(lines, g + 1) == signature_end(lines, j as int),
        decreases lr@.len() - j,
    {
        if j >= count {
            return Err(ObjectError::InvalidCommit);
        }
        let (ls, le) = lr[j];
        assert(lr@[j as int].0 <= lr@[j as int].1);
        assert(lines[j as int] == body@.subrange(ls as int, le as int));
        if !starts_at(body, ls, le, space.as_slice()) {
            return Err(ObjectError::InvalidCommit);
        }
        let ghost before = sig@;
        sig.push(10u8);
        sig.extend_from_slice(&body[ls..le]);
        proof {
            lemma_utf8_range(body@, ls as int, le as int);
            let nl = seq![10u8];
            assert(valid_utf8(nl)) by {
                assert(vstd::utf8::valid_first_scalar(nl));
                assert(vstd::utf8::pop_first_scalar(nl) =~= Seq::<u8>::empty());
                assert(valid_utf8(Seq::<u8>::empty()));
                assert(valid_utf8(vstd::utf8::pop_first_scalar(nl)));
            }
            vstd::utf8::valid_utf8_concat(before, nl);
            vstd::utf8::valid_utf8_concat(before + nl, lines[j as int]);
            assert(sig@ =~= before + nl + lines[j as int]);
            assert(sig@ =~= signature_first(lines[g as int]) + joined_lines(lines, g + 1, j + 1));
        }
        if find_in(body, ls, le, end.as_slice()).is_some() {
            return Ok(text_of(sig.as_slice()));
        }
        j = j + 1;
    }
}

/// Every line followed by a newline.
pub open spec fn lines_text(ls: Seq<Seq<u8>>) -> Seq<u8>
    decreases ls.len(),
{
    if ls.len() == 0 {
        Seq::empty()
    } else {
        lines_text(ls.drop_last()) + ls.last() + seq![10u8]
    }
}

proof fn lemma_lines_text_concat(a: Seq<Seq<u8>>, b: Seq<Seq<u8>>)
    ensures
        lines_text(a + b) == lines_text(a) + lines_text(b),
    decreases b.len(),
{
    if b.len() == 0 {
        assert(a + b =~= a);
        assert(lines_text(a) + Seq::<u8>::empty() =~= lines_text(a));
    } else {
        lemma_lines_text_concat(a, b.drop_last());
        assert((a + b).drop_last() =~= a + b.drop_last());
        assert((a + b).last() == b.last());
        assert(lines_text(a + b) =~= lines_text(a) + lines_text(b));
    }
}

proof fn lemma_lines_text_one(x: Seq<u8>)
    ensures
        lines_text(seq![x]) == x + seq![10u8],
{
    assert(seq![x].drop_last() =~= Seq::<Seq<u8>>::empty());
    assert(lines_text(Seq::<Seq<u8>>::empty()) =~= Seq::<u8>::empty());
    assert(Seq::<u8>::empty() + x + seq![10u8] =~= x + seq![10u8]);
}

/// Joining the lines of `m`, each followed by a newline, gives `m` and one
/// more newline.
proof fn lemma_lines_text_split(m: Seq<u8>)
    ensures
        lines_text(split_lines(m)) == m + seq![10u8],
    decreases m.len(),
{
    crate::bytes::lemma_find_in_range(m, seq![10u8]);
    match find_seq(m, seq![10u8]) {
        Some(i) => {
            if 0 <= i < m.len() {
                lemma_lines_text_split(m.skip(i + 1));
                lemma_lines_text_concat(seq![m.take(i)], split_lines(m.skip(i + 1)));
                lemma_lines_text_one(m.take(i));
                assert(m.subrange(i, i + 1)[0] == m[i]);
                assert(m =~= m.take(i) + seq![10u8] + m.skip(i + 1));
                assert(lines_text(split_lines(m)) =~= m + seq![10u8]);
            } else {
                lemma_lines_text_one(m);
            }
        },
        None => {
            lemma_lines_text_one(m);
        },
    }
}

/// A run of decimal digits written the canonical way: no sign and no leading
/// zero.
pub open spec fn canonical_decimal(s: Seq<u8>) -> bool {
    all_digits(s) && (s[0] != 48 || s.len() == 1)
}

proof fn lemma_digits_positive(s: Seq<u8>)
    requires
        all_digits(s),
        s[0] != 48,
    ensures
        digits_value(s) >= 1,
    decreases s.len(),
{
    if s.len() > 1 {
        let t = s.drop_last();
        assert(all_digits(t)) by {
            assert forall|i: int| 0 <= i < t.len() implies crate::bytes::is_digit(#[trigger] t[i]) by {
                assert(t[i] == s[i]);
            }
        }
        lemma_digits_positive(t);
    } else {
        assert(s.drop_last() =~= Seq::<u8>::empty());
        assert(digits_value(Seq::<u8>::empty()) == 0);
    }
}

/// Canonical digits are what the number they denote is written as.
proof fn lemma_canonical_decimal(s: Seq<u8>)
    requires
        canonical_decimal(s),
    ensures
        decimal_bytes(digits_value(s)) == s,
    decreases s.len(),
{
    let v = digits_value(s);
    let t = s.drop_last();
    let d = (s.last() - 48) as nat;
    assert(crate::bytes::is_digit(s[s.len() - 1]));
    assert(v == digits_value(t) * 10 + d);
    if s.len() == 1 {
        assert(t =~= Seq::<u8>::empty());
        assert(digits_value(t) == 0);
        assert(decimal_bytes(v) =~= s);
    } else {
        assert(canonical_decimal(t)) by {
            assert forall|i: int| 0 <= i < t.len() implies crate::bytes::is_digit(#[trigger] t[i]) by {
                assert(t[i] == s[i]);
            }
            assert(t[0] == s[0]);
        }
        lemma_digits_positive(t);
        lemma_canonical_decimal(t);
        assert(v / 10 == digits_value(t) && v % 10 == d) by (nonlinear_arith)
            requires
                v == digits_value(t) * 10 + d,
                d < 10,
        ;
        assert(decimal_bytes(v) =~= decimal_bytes(v / 10) + seq![(v % 10 + 48) as u8]);
        assert(decimal_bytes(v) =~= s);
    }
}

proof fn lemma_parent_count(lines: Seq<Seq<u8>>, i: int)
    requires
        0 <= i <= lines.len(),
    ensures
        i + parent_count(lines, i) <= lines.len(),
        forall|j: int|
            0 <= j < parent_count(lines, i) ==> starts_with(#[trigger] lines[i + j], parent_tag()),
    decreases lines.len() - i,
{
    if i < lines.len() && starts_with(lines[i], parent_tag()) {
        lemma_parent_count(lines, i + 1);
        assert forall|j: int| 0 <= j < parent_count(lines, i) implies starts_with(
            #[trigger] lines[i + j],
            parent_tag(),
        ) by {
            if j > 0 {
                assert(lines[i + j] == lines[(i + 1) + (j - 1)]);
            }
        }
    }
}

proof fn lemma_parent_lines(lines: Seq<Seq<u8>>, cnt: nat)
    requires
        1 + cnt <= lines.len(),
        forall|j: int| 0 <= j < cnt ==> starts_with(#[trigger] lines[1 + j], parent_tag()),
    ensures
        parent_lines(Seq::new(cnt, |j: int| lines[1 + j].skip(7))) == lines_text(
            lines.subrange(1, 1 + cnt as int),
        ),
    decreases cnt,
{
    let ps = Seq::new(cnt, |j: int| lines[1 + j].skip(7));
    if cnt == 0 {
        assert(lines.subrange(1, 1) =~= Seq::<Seq<u8>>::empty());
        assert(ps =~= Seq::<Seq<u8>>::empty());
    } else {
        lemma_parent_lines(lines, (cnt - 1) as nat);
        assert(ps.drop_last() =~= Seq::new((cnt - 1) as nat, |j: int| lines[1 + j].skip(7)));
        let sub = lines.subrange(1, 1 + cnt as int);
        assert(sub.drop_last() =~= lines.subrange(1, cnt as int));
        assert(starts_with(lines[1 + (cnt - 1)], parent_tag()));
        let l = lines[cnt as int];
        assert(l =~= parent_tag() + l.skip(7));
        assert(parent_lines(ps) =~= lines_text(sub));
    }
}

proof fn lemma_signature_text(lines: Seq<Seq<u8>>, g: int, t: int)
    requires
        0 <= g < t <= lines.len(),
    ensures
        lines[g] + joined_lines(lines, g + 1, t) + seq![10u8] == lines_text(lines.subrange(g, t)),
    decreases t - g,
{
    if t == g + 1 {
        assert(lines.subrange(g, t) =~= seq![lines[g]]);
        lemma_lines_text_one(lines[g]);
        assert(joined_lines(lines, g + 1, t) =~= Seq::<u8>::empty());
        assert(lines[g] + Seq::<u8>::empty() =~= lines[g]);
    } else {
        lemma_signature_text(lines, g, t - 1);
        assert(lines.subrange(g, t).drop_last() =~= lines.subrange(g, t - 1));
        assert(lines.subrange(g, t).last() == lines[t - 1]);
        assert(lines[g] + joined_lines(lines, g + 1, t) + seq![10u8] =~= lines_text(
            lines.subrange(g, t),
        ));
    }
}

/// The timestamp text of an author line, found as `parse_author` finds it.
pub open spec fn author_stamp(line: Seq<u8>) -> Seq<u8> {
    match find_seq(line, seq![32u8, 60u8]) {
        None => Seq::empty(),
        Some(i) => {
            let rest = line.skip(i + 2);
            match find_seq(rest, seq![62u8, 32u8]) {
                None => Seq::empty(),
                Some(j) => {
                    let tail = rest.skip(j + 2);
                    match find_seq(tail, seq![32u8]) {
                        None => Seq::empty(),
                        Some(k) => tail.take(k),
                    }
                },
            }
        },
    }
}

/// An author line whose timestamp is written the canonical way is what its
/// parsed fields serialize to.
#[verifier::rlimit(40)]
pub proof fn lemma_author_text(x: Seq<u8>)
    requires
        parse_author(x) is Some,
        canonical_decimal(author_stamp(x)),
    ensures
        author_bytes(parse_author(x)->0) == x,
{
    let i = find_seq(x, seq![32u8, 60u8])->0;
    crate::bytes::lemma_find_in_range(x, seq![32u8, 60u8]);
    let rest = x.skip(i + 2);
    let j = find_seq(rest, seq![62u8, 32u8])->0;
    crate::bytes::lemma_find_in_range(rest, seq![62u8, 32u8]);
    let tail = rest.skip(j + 2);
    let k = find_seq(tail, seq![32u8])->0;
    crate::bytes::lemma_find_in_range(tail, seq![32u8]);
    let ts = tail.take(k);
    let zone = tail.skip(k + 1);
    assert(crate::bytes::is_digit(ts[0]));
    assert(unsigned_digits(ts) == ts);
    let v = digits_value(ts);
    lemma_canonical_decimal(ts);
    let m = parse_author(x)->0;
    assert(m.timestamp as nat == v);
    assert(tail =~= ts + seq![32u8] + zone);
    assert(rest =~= rest.take(j) + seq![62u8, 32u8] + tail);
    assert(x =~= x.take(i) + seq![32u8, 60u8] + rest);
    assert(author_bytes(m) =~= x);
}

/// A commit payload that serializes back to itself: it parses, its
/// timestamps are written the canonical way, the first signature line has a
/// space after `gpgsig`, and the signature block ends the metadata.
pub open spec fn commit_well_formed(p: Seq<u8>) -> bool {
    &&& parse_commit(p) is Ok
    &&& {
        let lines = split_lines(p.take(find_seq(p, seq![10u8, 10u8])->0));
        let a: int = 1 + parent_count(lines, 1) as int;
        let c: int = a + 1;
        let has_c = c < lines.len() && starts_with(lines[c], committer_tag());
        let g: int = if has_c {
            c + 1
        } else {
            c
        };
        &&& canonical_decimal(author_stamp(lines[a].skip(7)))
        &&& (has_c ==> canonical_decimal(author_stamp(lines[c].skip(10))))
        &&& (g < lines.len() ==> lines[g][6] == 32 && signature_end(lines, g + 1) == Some(
            lines.len() - 1,
        ))
    }
}

proof fn lemma_head_text(p: Seq<u8>, lines: Seq<Seq<u8>>)
    requires
        commit_well_formed(p),
        lines == split_lines(p.take(find_seq(p, seq![10u8, 10u8])->0)),
    ensures
        ({
            let m = parse_commit(p)->Ok_0;
            let a: int = 1 + parent_count(lines, 1) as int;
            &&& a < lines.len()
            &&& lines_text(lines.subrange(0, a + 1)) == tree_tag() + m.tree + seq![10u8]
                + parent_lines(m.parents) + author_tag() + author_bytes(m.author) + seq![10u8]
        }),
{
    let m = parse_commit(p)->Ok_0;
    let pc = parent_count(lines, 1);
    let a: int = 1 + pc as int;
    assert(lines.len() >= 1);
    lemma_parent_count(lines, 1);
    lemma_parent_lines(lines, pc);
    assert(m.parents == Seq::new(pc, |j: int| lines[1 + j].skip(7)));
    lemma_author_text(lines[a].skip(7));
    assert(lines[a] =~= author_tag() + lines[a].skip(7));
    assert(lines[0] =~= tree_tag() + lines[0].skip(5));
    assert(lines.subrange(0, a + 1) =~= seq![lines[0]] + lines.subrange(1, a) + seq![lines[a]]);
    lemma_lines_text_concat(seq![lines[0]] + lines.subrange(1, a), seq![lines[a]]);
    lemma_lines_text_concat(seq![lines[0]], lines.subrange(1, a));
    lemma_lines_text_one(lines[0]);
    lemma_lines_text_one(lines[a]);
    assert(lines_text(lines.subrange(0, a + 1)) =~= tree_tag() + m.tree + seq![10u8]
        + parent_lines(m.parents) + author_tag() + author_bytes(m.author) + seq![10u8]);
}

proof fn lemma_tail_text(p: Seq<u8>, lines: Seq<Seq<u8>>)
    requires
        commit_well_formed(p),
        lines == split_lines(p.take(find_seq(p, seq![10u8, 10u8])->0)),
        1 + (parent_count(lines, 1) as int) < lines.len(),
    ensures
        ({
            let m = parse_commit(p)->Ok_0;
            let c: int = 2 + parent_count(lines, 1) as int;
            lines_text(lines.subrange(c, lines.len() as int)) == committer_line(m.committer)
                + signature_lines(m.gpgsig)
        }),
{
    let m = parse_commit(p)->Ok_0;
    let n = lines.len() as int;
    let c: int = 2 + parent_count(lines, 1) as int;
    if c >= n {
        assert(lines.subrange(c, n) =~= Seq::<Seq<u8>>::empty());
        assert(committer_line(m.committer) + signature_lines(m.gpgsig) =~= Seq::<u8>::empty());
    } else {
        let has_c = starts_with(lines[c], committer_tag());
        let g: int = if has_c {
            c + 1
        } else {
            c
        };
        if has_c {
            lemma_author_text(lines[c].skip(10));
            assert(lines[c] =~= committer_tag() + lines[c].skip(10));
            lemma_lines_text_one(lines[c]);
            assert(committer_line(m.committer) == lines[c] + seq![10u8]);
        } else {
            assert(committer_line(m.committer) =~= Seq::<u8>::empty());
        }
        if g >= n {
            assert(lines.subrange(c, n) =~= seq![lines[c]]);
            assert(signature_lines(m.gpgsig) =~= Seq::<u8>::empty());
            assert(lines[c] + seq![10u8] + Seq::<u8>::empty() =~= lines[c] + seq![10u8]);
        } else {
            lemma_signature_text(lines, g, n);
            assert(lines[g] =~= gpgsig_tag() + seq![32u8] + lines[g].skip(7));
            assert(signature_first(lines[g]) =~= lines[g].skip(7));
            assert(signature_lines(m.gpgsig) =~= lines[g] + joined_lines(lines, g + 1, n) + seq![
                10u8,
            ]);
            if has_c {
                assert(lines.subrange(c, n) =~= seq![lines[c]] + lines.subrange(g, n));
                lemma_lines_text_concat(seq![lines[c]], lines.subrange(g, n));
            } else {
                assert(Seq::<u8>::empty() + signature_lines(m.gpgsig) =~= signature_lines(
                    m.gpgsig,
                ));
            }
        }
    }
}

/// Serializing a parsed commit gives back its payload, where the payload is
/// well formed.
pub proof fn lemma_commit_round_trip(p: Seq<u8>)
    requires
        commit_well_formed(p),
    ensures
        commit_payload(parse_commit(p)->Ok_0) == p,
{
    let k: int = find_seq(p, seq![10u8, 10u8])->0;
    crate::bytes::lemma_find_in_range(p, seq![10u8, 10u8]);
    let meta = p.take(k);
    let lines = split_lines(meta);
    let n = lines.len() as int;
    let m = parse_commit(p)->Ok_0;
    let a: int = 1 + parent_count(lines, 1) as int;
    lemma_lines_text_split(meta);
    lemma_head_text(p, lines);
    lemma_tail_text(p, lines);
    assert(lines =~= lines.subrange(0, a + 1) + lines.subrange(a + 1, n));
    lemma_lines_text_concat(lines.subrange(0, a + 1), lines.subrange(a + 1, n));
    assert(p.subrange(k, k + 2) =~= seq![10u8, 10u8]);
    assert(p =~= meta + seq![10u8] + seq![10u8] + p.skip(k + 2));
    assert(commit_payload(m) =~= p);
}

} // verus!
