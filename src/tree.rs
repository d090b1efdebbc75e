//! Tree objects: an ordered list of named entries, each a mode, a kind and
//! the hash of another object.

use vstd::prelude::*;
use vstd::string::StringExecFns;
use vstd::utf8::{decode_utf8, encode_utf8, valid_utf8};

use crate::bytes::{find_in, find_seq, lemma_find_byte_after, push_all};
use crate::error::ObjectError;
use crate::hash::{hex_digest, hex_of, hex_to_bytes, is_hex_text, lemma_hex_round_trip, unhex};
use crate::kind::{kind_name, ObjectKind};
use crate::text::{push_char, utf8_string};

verus! {

/// One record of a tree payload, as bytes: `<mode> <name>\0<20-byte hash>`.
pub struct TreeEntryModel {
    pub mode: Seq<u8>,
    pub name: Seq<u8>,
    pub hash: Seq<u8>,
}

/// One row of a tree as text.
pub struct TreeRowModel {
    pub mode: Seq<char>,
    pub perms: Seq<char>,
    pub kind: ObjectKind,
    pub hash: Seq<char>,
    pub name: Seq<char>,
}

/// The first record of a tree payload and how many bytes it takes. A
/// missing space or NUL, or a hash shorter than 20 bytes, makes the record
/// corrupt; only a complete record is checked for UTF-8.
pub open spec fn first_entry(b: Seq<u8>) -> Result<(TreeEntryModel, int), ObjectError> {
    match find_seq(b, seq![32u8]) {
        None => Err(ObjectError::CorruptObject(None)),
        Some(sp) => match find_seq(b.skip(sp + 1), seq![0u8]) {
            None => Err(ObjectError::CorruptObject(None)),
            Some(nl) => {
                let end = sp + 1 + nl;
                if b.len() < end + 21 {
                    Err(ObjectError::CorruptObject(None))
                } else if !valid_utf8(b.take(sp)) || !valid_utf8(b.subrange(sp + 1, end)) {
                    Err(ObjectError::NotUtf8)
                } else {
                    Ok(
                        (
                            TreeEntryModel {
                                mode: b.take(sp),
                                name: b.subrange(sp + 1, end),
                                hash: b.subrange(end + 1, end + 21),
                            },
                            end + 21,
                        ),
                    )
                }
            },
        },
    }
}

/// The records of a tree payload, in order, or why it is malformed.
pub open spec fn parse_tree(b: Seq<u8>) -> Result<Seq<TreeEntryModel>, ObjectError>
    decreases b.len(),
{
    if b.len() == 0 {
        Ok(Seq::empty())
    } else {
        match first_entry(b) {
            Err(e) => Err(e),
            Ok((entry, used)) => if 0 < used <= b.len() {
                match parse_tree(b.skip(used)) {
                    Ok(rest) => Ok(seq![entry] + rest),
                    Err(e) => Err(e),
                }
            } else {
                Err(ObjectError::CorruptObject(None))
            },
        }
    }
}

/// A mode left-padded with zeros to six characters.
pub open spec fn pad_mode(p: Seq<char>) -> Seq<char> {
    if p.len() < 6 {
        Seq::new((6 - p.len()) as nat, |i: int| '0') + p
    } else {
        p
    }
}

/// A mode that starts with `1` is a file; any other is a directory.
pub open spec fn mode_kind(p: Seq<char>) -> ObjectKind {
    if p.len() > 0 && p[0] == '1' {
        ObjectKind::Blob
    } else {
        ObjectKind::Tree
    }
}

/// The row for a mode, a hash and a name.
pub open spec fn row_model(perms: Seq<char>, hash: Seq<char>, name: Seq<char>) -> TreeRowModel {
    TreeRowModel {
        mode: perms,
        perms: pad_mode(perms),
        kind: mode_kind(pad_mode(perms)),
        hash,
        name,
    }
}

/// The row that a tree record reads as.
pub open spec fn row_of(e: TreeEntryModel) -> TreeRowModel {
    row_model(decode_utf8(e.mode), hex_of(e.hash), decode_utf8(e.name))
}

/// `<mode> <kind> <hash>\t<name>`.
pub open spec fn row_text(r: TreeRowModel) -> Seq<char> {
    r.perms + seq![' '] + kind_name(r.kind) + seq![' '] + r.hash + seq!['\t'] + r.name
}

/// The rows of a tree, one per line, with no newline at the end.
pub open spec fn tree_text(rows: Seq<TreeRowModel>) -> Seq<char>
    decreases rows.len(),
{
    if rows.len() == 0 {
        Seq::empty()
    } else if rows.len() == 1 {
        row_text(rows[0])
    } else {
        tree_text(rows.drop_last()) + seq!['\n'] + row_text(rows.last())
    }
}

/// The record of one row in a tree payload: the mode as it was written, a
/// space, the name, a NUL byte and the 20 raw bytes of the hash.
pub open spec fn row_payload(r: TreeRowModel) -> Seq<u8> {
    encode_utf8(r.mode) + seq![32u8] + encode_utf8(r.name) + seq![0u8] + unhex(
        r.hash,
    )
}

/// The payload of a tree: its records one after another.
pub open spec fn tree_payload(rows: Seq<TreeRowModel>) -> Seq<u8>
    decreases rows.len(),
{
    if rows.len() == 0 {
        Seq::empty()
    } else {
        tree_payload(rows.drop_last()) + row_payload(rows.last())
    }
}

/// Every row names its object by 40 hexadecimal digits.
pub open spec fn rows_wf(rows: Seq<TreeRowModel>) -> bool {
    forall|i: int| 0 <= i < rows.len() ==> is_hex_text(#[trigger] rows[i].hash) && rows[i].hash.len() == 40
}

/// One entry of a tree.
pub struct TreeRowItem {
    /// The mode as the payload writes it.
    pub mode: String,
    /// The mode, left-padded with zeros to six characters.
    pub perms: String,
    pub kind: ObjectKind,
    /// The hash of the entry's object in hexadecimal.
    pub hash: String,
    pub name: String,
}

impl View for TreeRowItem {
    type V = TreeRowModel;

    open spec fn view(&self) -> TreeRowModel {
        TreeRowModel {
            mode: self.mode@,
            perms: self.perms@,
            kind: self.kind,
            hash: self.hash@,
            name: self.name@,
        }
    }
}

/// A parsed tree.
pub struct TreeContents {
    /// The entries in the order the payload holds them.
    pub lines: Vec<TreeRowItem>,
}

impl View for TreeContents {
    type V = Seq<TreeRowModel>;

    open spec fn view(&self) -> Seq<TreeRowModel> {
        self.lines@.map_values(|r: TreeRowItem| r@)
    }
}

impl TreeRowItem {
    /// An entry from its mode, hash and name; the mode is padded to six
    /// characters and decides the kind.
    pub fn new(perms: &str, hash: String, name: &str) -> (r: TreeRowItem)
        ensures
            r@ == row_model(perms@, hash@, name@),
    {
        let n = perms.unicode_len();
        let mut padded = String::new();
        if n < 6 {
            let mut i: usize = n;
            while i < 6
                invariant
                    n <= i <= 6,
                    padded@ == Seq::new((i - n) as nat, |j: int| '0'),
                decreases 6 - i,
            {
                push_char(&mut padded, '0');
                i = i + 1;
                assert(padded@ =~= Seq::new((i - n) as nat, |j: int| '0'));
            }
        }
        padded.append(perms);
        assert(padded@ =~= pad_mode(perms@));
        let kind = if padded.as_str().unicode_len() > 0 && padded.as_str().get_char(0) == '1' {
            ObjectKind::Blob
        } else {
            ObjectKind::Tree
        };
        TreeRowItem { mode: perms.to_string(), perms: padded, kind, hash, name: name.to_string() }
    }

    /// Appends the payload record of this entry.
    pub fn serialize_into(&self, out: &mut Vec<u8>)
        requires
            is_hex_text(self.hash@),
        ensures
            final(out)@ == old(out)@ + row_payload(self@),
    {
        push_all(out, self.mode.as_str().as_bytes());
        out.push(32u8);
        push_all(out, self.name.as_str().as_bytes());
        out.push(0u8);
        let raw = hex_to_bytes(self.hash.as_str());
        push_all(out, raw.as_slice());
        proof {
            assert(final(out)@ =~= old(out)@ + row_payload(self@));
        }
    }

    /// `<mode> <kind> <hash>\t<name>`.
    pub fn render(&self) -> (r: String)
        ensures
            r@ == row_text(self@),
    {
        let mut s = String::new();
        s.append(self.perms.as_str());
        push_char(&mut s, ' ');
        s.append(self.kind.name());
        push_char(&mut s, ' ');
        s.append(self.hash.as_str());
        push_char(&mut s, '\t');
        s.append(self.name.as_str());
        s
    }
}

/// `done` followed by what the rest of a payload parses to.
pub open spec fn prepend(
    done: Seq<TreeEntryModel>,
    r: Result<Seq<TreeEntryModel>, ObjectError>,
) -> Result<Seq<TreeEntryModel>, ObjectError> {
    match r {
        Ok(rest) => Ok(done + rest),
        Err(e) => Err(e),
    }
}

impl TreeContents {
    /// Reads a tree payload: records `<mode> <name>\0<20-byte hash>` until the
    /// bytes run out. A missing delimiter or a short hash is `CorruptObject`;
    /// a mode or name that is not UTF-8 is `NotUtf8`.
    pub fn parse(body: &[u8]) -> (r: Result<TreeContents, ObjectError>)
        ensures
            match parse_tree(body@) {
                Ok(es) => r is Ok && r->Ok_0@ == es.map_values(|e: TreeEntryModel| row_of(e)),
                Err(e) => r == Err::<TreeContents, ObjectError>(e),
            },
            r is Ok ==> rows_wf(r->Ok_0@),
    {
        let n = body.len();
        let sp_pat: Vec<u8> = vec![32u8];
        let nul_pat: Vec<u8> = vec![0u8];
        assert(sp_pat@ =~= seq![32u8]);
        assert(nul_pat@ =~= seq![0u8]);
        let mut lines: Vec<TreeRowItem> = Vec::new();
        let ghost mut done: Seq<TreeEntryModel> = Seq::empty();
        let mut i: usize = 0;
        assert(body@.skip(0) =~= body@);
        while i < n
            invariant
                i <= n == body@.len(),
                sp_pat@ == seq![32u8],
                nul_pat@ == seq![0u8],
                parse_tree(body@) == prepend(done, parse_tree(body@.skip(i as int))),
                lines@.map_values(|r: TreeRowItem| r@) == done.map_values(
                    |e: TreeEntryModel| row_of(e),
                ),
            decreases n - i,
        {
            let ghost b = body@.skip(i as int);
            assert(body@.subrange(i as int, n as int) =~= b);
            let sp = match find_in(body, i, n, sp_pat.as_slice()) {
                Some(sp) => sp,
                None => return Err(ObjectError::CorruptObject(None)),
            };
            proof {
                crate::bytes::lemma_find_in_range(b, sp_pat@);
                assert(b.take(sp - i) =~= body@.subrange(i as int, sp as int));
                assert(b.skip(sp - i + 1) =~= body@.subrange(sp + 1, n as int));
            }
            let nul = match find_in(body, sp + 1, n, nul_pat.as_slice()) {
                Some(nul) => nul,
                None => return Err(ObjectError::CorruptObject(None)),
            };
            proof {
                crate::bytes::lemma_find_in_range(body@.subrange(sp + 1, n as int), nul_pat@);
                assert(b.subrange(sp - i + 1, nul - i) =~= body@.subrange(sp + 1, nul as int));
            }
            if n - nul < 21 {
                return Err(ObjectError::CorruptObject(None));
            }
            let mode = match utf8_string(&body[i..sp]) {
                Some(m) => m,
                None => return Err(ObjectError::NotUtf8),
            };
            let name = match utf8_string(&body[sp + 1..nul]) {
                Some(m) => m,
                None => return Err(ObjectError::NotUtf8),
            };
            let hash = hex_digest(&body[nul + 1..nul + 21]);
            let ghost entry = TreeEntryModel {
                mode: body@.subrange(i as int, sp as int),
                name: body@.subrange(sp + 1, nul as int),
                hash: body@.subrange(nul + 1, nul + 21),
            };
            proof {
                assert(b.subrange(nul - i + 1, nul - i + 21) =~= entry.hash);
                assert(first_entry(b) == Ok::<(TreeEntryModel, int), ObjectError>(
                    (entry, nul + 21 - i),
                ));
                assert(b.skip(nul + 21 - i) =~= body@.skip(nul + 21));
                vstd::utf8::encode_utf8_decode_utf8(mode@);
                vstd::utf8::encode_utf8_decode_utf8(name@);
            }
            let row = TreeRowItem::new(mode.as_str(), hash, name.as_str());
            lines.push(row);
            proof {
                let old_done = done;
                done = done.push(entry);
                assert(done.map_values(|e: TreeEntryModel| row_of(e)) =~= old_done.map_values(
                    |e: TreeEntryModel| row_of(e),
                ).push(row_of(entry)));
                assert(lines@.map_values(|r: TreeRowItem| r@) =~= done.map_values(
                    |e: TreeEntryModel| row_of(e),
                ));
                assert(old_done + (seq![entry] + match parse_tree(body@.skip(nul + 21)) {
                    Ok(rest) => rest,
                    Err(_) => Seq::empty(),
                }) =~= done + match parse_tree(body@.skip(nul + 21)) {
                    Ok(rest) => rest,
                    Err(_) => Seq::empty(),
                });
            }
            i = nul + 21;
        }
        proof {
            assert(body@.skip(i as int).len() == 0);
            assert(done + Seq::<TreeEntryModel>::empty() =~= done);
            lemma_parse_tree_hashes(body@);
            lemma_parsed_rows_wf(done);
        }
        Ok(TreeContents { lines })
    }

    /// The payload this tree is stored as.
    pub fn serialize(&self) -> (r: Vec<u8>)
        requires
            rows_wf(self@),
        ensures
            r@ == tree_payload(self@),
    {
        let mut out: Vec<u8> = Vec::new();
        let mut i: usize = 0;
        while i < self.lines.len()
            invariant
                i <= self.lines@.len(),
                rows_wf(self@),
                out@ == tree_payload(self@.take(i as int)),
            decreases self.lines@.len() - i,
        {
            assert(self@[i as int] == self.lines@[i as int]@);
            assert(is_hex_text(self@[i as int].hash));
            self.lines[i].serialize_into(&mut out);
            proof {
                let t = self@.take(i + 1);
                assert(t.drop_last() =~= self@.take(i as int));
            }
            i = i + 1;
        }
        assert(self@.take(i as int) =~= self@);
        out
    }

    /// The entries one per line, `<mode> <kind> <hash>\t<name>`, with no
    /// newline at the end.
    pub fn render(&self) -> (r: String)
        ensures
            r@ == tree_text(self@),
    {
        let mut s = String::new();
        let mut i: usize = 0;
        while i < self.lines.len()
            invariant
                i <= self.lines@.len(),
                s@ == tree_text(self@.take(i as int)),
            decreases self.lines@.len() - i,
        {
            if i > 0 {
                push_char(&mut s, '\n');
            }
            let line = self.lines[i].render();
            s.append(line.as_str());
            proof {
                let t = self@.take(i + 1);
                assert(t.drop_last() =~= self@.take(i as int));
                assert(t.last() == self.lines@[i as int]@);
                if i == 0 {
                    assert(self@.take(0) =~= Seq::<TreeRowModel>::empty());
                }
            }
            i = i + 1;
        }
        assert(self@.take(i as int) =~= self@);
        s
    }
}

proof fn lemma_tree_payload_cons(r: TreeRowModel, rs: Seq<TreeRowModel>)
    ensures
        tree_payload(seq![r] + rs) == row_payload(r) + tree_payload(rs),
    decreases rs.len(),
{
    if rs.len() == 0 {
        assert(seq![r] + rs =~= seq![r]);
        assert(seq![r].drop_last() =~= Seq::<TreeRowModel>::empty());
        assert(tree_payload(Seq::<TreeRowModel>::empty()) =~= Seq::<u8>::empty());
        assert(tree_payload(seq![r]) == tree_payload(seq![r].drop_last()) + row_payload(r));
        assert(row_payload(r) + Seq::<u8>::empty() =~= row_payload(r));
        assert(Seq::<u8>::empty() + row_payload(r) =~= row_payload(r));
    } else {
        lemma_tree_payload_cons(r, rs.drop_last());
        assert((seq![r] + rs).drop_last() =~= seq![r] + rs.drop_last());
        assert((seq![r] + rs).last() == rs.last());
        assert(tree_payload(seq![r] + rs) =~= row_payload(r) + tree_payload(rs));
    }
}

/// A parsed row names its object by 40 hexadecimal digits.
pub proof fn lemma_parsed_rows_wf(es: Seq<TreeEntryModel>)
    requires
        forall|i: int| 0 <= i < es.len() ==> (#[trigger] es[i]).hash.len() == 20,
    ensures
        rows_wf(es.map_values(|e: TreeEntryModel| row_of(e))),
{
    let rows = es.map_values(|e: TreeEntryModel| row_of(e));
    assert forall|i: int| 0 <= i < rows.len() implies is_hex_text(#[trigger] rows[i].hash)
        && rows[i].hash.len() == 40 by {
        lemma_hex_round_trip(es[i].hash);
    }
}

/// Every record that a tree payload parses to holds a 20-byte hash.
pub proof fn lemma_parse_tree_hashes(p: Seq<u8>)
    requires
        parse_tree(p) is Ok,
    ensures
        forall|i: int|
            0 <= i < parse_tree(p)->Ok_0.len() ==> (#[trigger] parse_tree(p)->Ok_0[i]).hash.len()
                == 20,
    decreases p.len(),
{
    if p.len() > 0 {
        let (e, used) = first_entry(p)->Ok_0;
        let sp = find_seq(p, seq![32u8])->0;
        crate::bytes::lemma_find_in_range(p, seq![32u8]);
        crate::bytes::lemma_find_in_range(p.skip(sp + 1), seq![0u8]);
        assert(e.hash.len() == 20);
        lemma_parse_tree_hashes(p.skip(used));
        let rest = parse_tree(p.skip(used))->Ok_0;
        assert forall|i: int| 0 <= i < parse_tree(p)->Ok_0.len() implies (#[trigger] parse_tree(
            p,
        )->Ok_0[i]).hash.len() == 20 by {
            if i > 0 {
                assert(parse_tree(p)->Ok_0[i] == rest[i - 1]);
            } else {
                assert(parse_tree(p)->Ok_0[0] == e);
            }
        }
    }
}

/// Serializing what a tree payload parses to gives back the payload.
pub proof fn lemma_tree_round_trip(p: Seq<u8>)
    requires
        parse_tree(p) is Ok,
    ensures
        tree_payload(parse_tree(p)->Ok_0.map_values(|e: TreeEntryModel| row_of(e))) == p,
    decreases p.len(),
{
    let es = parse_tree(p)->Ok_0;
    if p.len() == 0 {
        assert(es.map_values(|e: TreeEntryModel| row_of(e)) =~= Seq::<TreeRowModel>::empty());
        assert(p =~= Seq::<u8>::empty());
    } else {
        let (e, used) = first_entry(p)->Ok_0;
        let rest = parse_tree(p.skip(used))->Ok_0;
        assert(es == seq![e] + rest);
        lemma_tree_round_trip(p.skip(used));
        assert(es[0] == e);
        let rows = es.map_values(|x: TreeEntryModel| row_of(x));
        assert(rows =~= seq![row_of(e)] + rest.map_values(|x: TreeEntryModel| row_of(x)));
        lemma_tree_payload_cons(row_of(e), rest.map_values(|x: TreeEntryModel| row_of(x)));
        let sp = find_seq(p, seq![32u8])->0;
        let nl = find_seq(p.skip(sp + 1), seq![0u8])->0;
        crate::bytes::lemma_find_in_range(p, seq![32u8]);
        crate::bytes::lemma_find_in_range(p.skip(sp + 1), seq![0u8]);
        assert(p.subrange(sp, sp + 1)[0] == p[sp]);
        assert(p.skip(sp + 1).subrange(nl, nl + 1)[0] == p[sp + 1 + nl]);
        vstd::utf8::decode_utf8_encode_utf8(e.mode);
        vstd::utf8::decode_utf8_encode_utf8(e.name);
        lemma_hex_round_trip(e.hash);
        assert(row_payload(row_of(e)) =~= p.take(used));
        assert(p =~= p.take(used) + p.skip(used));
    }
}

/// A row that a payload can carry: a 40-digit hash, a mode with no space and
/// a name with no NUL byte.
pub open spec fn row_storable(r: TreeRowModel) -> bool {
    &&& is_hex_text(r.hash)
    &&& r.hash.len() == 40
    &&& !encode_utf8(r.mode).contains(32u8)
    &&& !encode_utf8(r.name).contains(0u8)
}

proof fn lemma_unhex_len(h: Seq<char>)
    requires
        h.len() % 2 == 0,
    ensures
        unhex(h).len() == h.len() / 2,
    decreases h.len(),
{
    if h.len() >= 2 {
        lemma_unhex_len(h.take(h.len() - 2));
    }
}

/// The record a row is stored as.
pub open spec fn entry_of_row(r: TreeRowModel) -> TreeEntryModel {
    TreeEntryModel {
        mode: encode_utf8(r.mode),
        name: encode_utf8(r.name),
        hash: unhex(r.hash),
    }
}

proof fn lemma_first_entry_of_row(r: TreeRowModel, tail: Seq<u8>)
    requires
        row_storable(r),
    ensures
        first_entry(row_payload(r) + tail) == Ok::<(TreeEntryModel, int), ObjectError>(
            (entry_of_row(r), row_payload(r).len() as int),
        ),
        row_payload(row_of(entry_of_row(r))) == row_payload(r),
        (row_payload(r) + tail).skip(row_payload(r).len() as int) == tail,
{
    let x = encode_utf8(r.mode);
    let n = encode_utf8(r.name);
    let h = unhex(r.hash);
    let p = row_payload(r) + tail;
    assert(p =~= x + seq![32u8] + (n + seq![0u8] + (h + tail)));
    lemma_find_byte_after(x, 32u8, n + seq![0u8] + (h + tail));
    let sp = x.len() as int;
    assert(p.take(sp) =~= x);
    vstd::utf8::encode_utf8_valid_utf8(r.mode);
    vstd::utf8::encode_utf8_valid_utf8(r.name);
    assert(p.skip(sp + 1) =~= n + seq![0u8] + (h + tail));
    lemma_find_byte_after(n, 0u8, h + tail);
    let end = sp + 1 + n.len();
    assert(p.subrange(sp + 1, end) =~= n);
    lemma_unhex_len(r.hash);
    assert(p.subrange(end + 1, end + 21) =~= h);
    assert(p.skip(end + 21) =~= tail);
    vstd::utf8::encode_utf8_decode_utf8(r.mode);
    vstd::utf8::encode_utf8_decode_utf8(r.name);
    lemma_hex_round_trip(h);
    assert(row_payload(row_of(entry_of_row(r))) =~= row_payload(r));
}

/// A tree payload built from storable rows parses, and its rows serialize
/// back to the same payload.
pub proof fn lemma_parse_tree_payload(rows: Seq<TreeRowModel>)
    requires
        forall|i: int| 0 <= i < rows.len() ==> row_storable(#[trigger] rows[i]),
    ensures
        parse_tree(tree_payload(rows)) is Ok,
        tree_payload(parse_tree(tree_payload(rows))->Ok_0.map_values(
            |e: TreeEntryModel| row_of(e),
        )) == tree_payload(rows),
    decreases rows.len(),
{
    if rows.len() == 0 {
        assert(tree_payload(rows) =~= Seq::<u8>::empty());
        let es = parse_tree(tree_payload(rows))->Ok_0;
        assert(es.map_values(|e: TreeEntryModel| row_of(e)) =~= Seq::<TreeRowModel>::empty());
    } else {
        let r = rows[0];
        let rest = rows.skip(1);
        assert(rows =~= seq![r] + rest);
        assert(row_storable(r));
        assert forall|i: int| 0 <= i < rest.len() implies row_storable(#[trigger] rest[i]) by {
            assert(rest[i] == rows[i + 1]);
        }
        lemma_tree_payload_cons(r, rest);
        lemma_parse_tree_payload(rest);
        let tail = tree_payload(rest);
        let p = tree_payload(rows);
        lemma_first_entry_of_row(r, tail);
        let entry = entry_of_row(r);
        let es2 = parse_tree(tail)->Ok_0;
        assert(parse_tree(p) == Ok::<Seq<TreeEntryModel>, ObjectError>(seq![entry] + es2));
        let rows2 = es2.map_values(|e: TreeEntryModel| row_of(e));
        assert((seq![entry] + es2).map_values(|e: TreeEntryModel| row_of(e)) =~= seq![
            row_of(entry),
        ] + rows2);
        lemma_tree_payload_cons(row_of(entry), rows2);
    }
}

} // verus!
