use git_objects::commit::{Author, CommitContents};
use git_objects::display::{cat_file_output, ls_tree_step, DisplayFlag, TreeListing};
use git_objects::hash::{find_hash, hex_digest};
use git_objects::kind::ObjectKind;
use git_objects::object::{Contents, Object};
use git_objects::store::{Context, ObjectFile};
use git_objects::tree::TreeContents;
use git_objects::{zlib_decode, zlib_encode, ObjectError};

const TEST_HASH: &str = "6de7b8c69d65923eb48b10a560f3d72939df256a";

fn tree_payload() -> Vec<u8> {
    let mut p = b"100644 a.txt\0".to_vec();
    p.extend((0u8..20).collect::<Vec<u8>>());
    p
}

fn root_commit() -> Vec<u8> {
    b"tree 4b825dc642cb6eb9a060e54bf8d69288fbee4904\n\
author Jane Doe <jane@example.com> 1700000000 +0100\n\
committer John Roe <john@example.com> 1700000100 -0500\n\
\n\
Initial commit\n"
        .to_vec()
}

#[test]
fn blob_hash_matches_fixture() {
    let object = Object::new_blob(b"This is a test file.\n");
    assert_eq!(object.encode(), b"blob 21\0This is a test file.\n".to_vec());
    assert_eq!(object.compute_hash(), TEST_HASH);
    assert_eq!(object.size, 21);
}

#[test]
fn hex_digest_formats_each_byte() {
    assert_eq!(hex_digest(&[0x00, 0x0f, 0xa5, 0xff]), "000fa5ff");
    assert_eq!(hex_digest(&[]), "");
}

#[test]
fn test_find_hash() {
    let hash = Object::new_blob(b"This is a test file.\n").compute_hash();
    let bucket = Some(vec![hash[2..].to_string()]);

    let found = find_hash(&hash, &bucket);
    assert!(found.is_ok());
    assert_eq!(found.unwrap(), hash);

    let found = find_hash(&hash[..4], &bucket);
    assert!(found.is_ok());
    assert_eq!(found.unwrap(), hash);

    let found = find_hash("aaaaa", &None);
    assert!(found.is_err());

    let found = find_hash(&hash[..3], &bucket);
    assert!(found.is_err());
}

#[test]
fn find_hash_ambiguous_prefix() {
    let a = "abc1230000000000000000000000000000000000";
    let b = "abcdef0000000000000000000000000000000000";
    let bucket = Some(vec![a[2..].to_string(), b[2..].to_string()]);
    assert_eq!(find_hash("abc1", &bucket), Ok(a.to_string()));
    assert_eq!(find_hash("abcd", &bucket), Ok(b.to_string()));
    assert_eq!(find_hash("ab", &bucket), Err(ObjectError::InvalidHash));
    let c = "abc1231111111111111111111111111111111111";
    let both = Some(vec![a[2..].to_string(), c[2..].to_string()]);
    assert_eq!(find_hash("abc123", &both), Err(ObjectError::AmbiguousHash));
    assert_eq!(find_hash(a, &both), Ok(a.to_string()));
}

#[test]
fn find_hash_missing_bucket_or_name() {
    assert_eq!(find_hash("zz", &None), Err(ObjectError::InvalidHash));
    assert_eq!(find_hash("zzzz", &None), Err(ObjectError::NotFound));
    let bucket = Some(vec!["1111".to_string()]);
    assert_eq!(find_hash("zz22", &bucket), Err(ObjectError::NotFound));
    let long = "a".repeat(41);
    assert_eq!(find_hash(&long, &bucket), Err(ObjectError::InvalidHash));
}

#[test]
fn zlib_round_trip() {
    let data = b"blob 5\0hello hello hello hello".to_vec();
    let encoded = zlib_encode(&data).unwrap();
    assert_ne!(encoded, data);
    assert_eq!(zlib_decode(&encoded), Ok(data));
    let empty = zlib_encode(&[]).unwrap();
    assert_eq!(zlib_decode(&empty), Ok(vec![]));
}

#[test]
fn zlib_decode_rejects_garbage() {
    assert_eq!(zlib_decode(b"not a zlib stream"), Err(ObjectError::CorruptObject(None)));
}

#[test]
fn tree_entry_parses_and_renders() {
    let tree = TreeContents::parse(&tree_payload()).unwrap();
    assert_eq!(tree.lines.len(), 1);
    let row = &tree.lines[0];
    assert_eq!(row.kind, ObjectKind::Blob);
    assert_eq!(row.perms, "100644");
    assert_eq!(row.name, "a.txt");
    assert_eq!(row.hash, "000102030405060708090a0b0c0d0e0f10111213");
    assert_eq!(
        tree.render(),
        "100644 blob 000102030405060708090a0b0c0d0e0f10111213\ta.txt"
    );
}

#[test]
fn tree_directory_mode_is_padded() {
    let mut p = b"40000 sub\0".to_vec();
    p.extend([7u8; 20]);
    p.extend(b"100755 run.sh\0");
    p.extend([9u8; 20]);
    let tree = TreeContents::parse(&p).unwrap();
    assert_eq!(tree.lines.len(), 2);
    assert_eq!(tree.lines[0].perms, "040000");
    assert_eq!(tree.lines[0].kind, ObjectKind::Tree);
    assert_eq!(tree.lines[1].kind, ObjectKind::Blob);
    assert_eq!(
        tree.render(),
        format!(
            "040000 tree {}\tsub\n100755 blob {}\trun.sh",
            "07".repeat(20),
            "09".repeat(20)
        )
    );
    assert_eq!(tree.serialize(), p);
}

#[test]
fn tree_serialize_round_trip() {
    let p = tree_payload();
    assert_eq!(TreeContents::parse(&p).unwrap().serialize(), p);
    assert_eq!(TreeContents::parse(&[]).unwrap().lines.len(), 0);
}

#[test]
fn tree_rejects_truncated_records() {
    let mut p = tree_payload();
    p.truncate(p.len() - 1);
    assert_eq!(TreeContents::parse(&p).err(), Some(ObjectError::CorruptObject(None)));
    assert_eq!(TreeContents::parse(b"100644").err(), Some(ObjectError::CorruptObject(None)));
    assert_eq!(TreeContents::parse(b"100644 a.txt").err(), Some(ObjectError::CorruptObject(None)));
    assert_eq!(TreeContents::parse(b"\xff a").err(), Some(ObjectError::CorruptObject(None)));
    assert_eq!(TreeContents::parse(b"100644a.txt").err(), Some(ObjectError::CorruptObject(None)));
    let mut bad_mode = b"1\xff a\0".to_vec();
    bad_mode.extend([1u8; 20]);
    assert_eq!(TreeContents::parse(&bad_mode).err(), Some(ObjectError::NotUtf8));
    let mut bad_name = b"100644 \xff\0".to_vec();
    bad_name.extend([1u8; 20]);
    assert_eq!(TreeContents::parse(&bad_name).err(), Some(ObjectError::NotUtf8));
    let mut partial = tree_payload();
    partial.extend(b"1006");
    assert_eq!(TreeContents::parse(&partial).err(), Some(ObjectError::CorruptObject(None)));
}

#[test]
fn root_commit_parses() {
    let c = CommitContents::parse(&root_commit()).unwrap();
    assert_eq!(c.tree, "4b825dc642cb6eb9a060e54bf8d69288fbee4904");
    assert!(c.parents.is_empty());
    assert_eq!(c.author.name, "Jane Doe");
    assert_eq!(c.author.email, "jane@example.com");
    assert_eq!(c.author.timestamp, 1700000000);
    assert_eq!(c.author.timezone, "+0100");
    let committer = c.committer.as_ref().unwrap();
    assert_eq!(committer.name, "John Roe");
    assert_eq!(committer.timezone, "-0500");
    assert!(c.gpgsig.is_none());
    assert_eq!(c.message, "Initial commit\n");
    assert_eq!(c.serialize(), root_commit());
}

#[test]
fn commit_with_parents_and_signature() {
    let text = b"tree 1111111111111111111111111111111111111111\n\
parent 2222222222222222222222222222222222222222\n\
parent 3333333333333333333333333333333333333333\n\
author A <a@x> 1 +0000\n\
committer B <b@x> 2 +0000\n\
gpgsig -----BEGIN PGP SIGNATURE-----\n \n abc\n -----END PGP SIGNATURE-----\n\
\n\
Merge\n\nbody\n"
        .to_vec();
    let c = CommitContents::parse(&text).unwrap();
    assert_eq!(c.parents.len(), 2);
    assert_eq!(c.parents[1], "3333333333333333333333333333333333333333");
    assert_eq!(
        c.gpgsig.as_deref(),
        Some("-----BEGIN PGP SIGNATURE-----\n \n abc\n -----END PGP SIGNATURE-----")
    );
    assert_eq!(c.message, "Merge\n\nbody\n");
    assert_eq!(c.serialize(), text);
}

#[test]
fn commit_signature_without_end_marker() {
    let text = b"tree 1111111111111111111111111111111111111111\n\
author A <a@x> 1 +0000\n\
committer B <b@x> 2 +0000\n\
gpgsig -----BEGIN PGP SIGNATURE-----\n abc\n\
\n\
msg"
        .to_vec();
    assert_eq!(CommitContents::parse(&text).err(), Some(ObjectError::InvalidCommit));
}

#[test]
fn commit_grammar_errors() {
    let parse = |t: &str| CommitContents::parse(t.as_bytes()).err();
    let tree = "tree 4b825dc642cb6eb9a060e54bf8d69288fbee4904\n";
    let author = "author A <a> 1 +0000\n";
    assert_eq!(parse(&format!("{tree}{}", "author A <a> 1 +0000")), Some(ObjectError::MissingMessage));
    assert_eq!(CommitContents::parse(b"\xff\xfe\n\nmsg").err(), Some(ObjectError::NotUtf8));
    assert_eq!(parse(&format!("trees x\n{author}\nm")), Some(ObjectError::MissingTree));
    assert_eq!(parse(&format!("{author}\nm")), Some(ObjectError::MissingTree));
    assert_eq!(parse(&format!("tree xyz\n{author}\nm")), Some(ObjectError::MissingTree));
    assert_eq!(
        parse(&format!("tree 4B825DC642CB6EB9A060E54BF8D69288FBEE4904\n{author}\nm")),
        Some(ObjectError::MissingTree)
    );
    assert_eq!(parse(&format!("{tree}\nm")), Some(ObjectError::MissingAuthor));
    assert_eq!(parse(&format!("{tree}parent y\n\nm")), Some(ObjectError::MissingAuthor));
    assert_eq!(parse(&format!("{tree}authr A <a> 1 +0000\n\nm")), Some(ObjectError::MissingAuthor));
    assert_eq!(parse(&format!("{tree}author A <a> 1 +2400\n\nm")), Some(ObjectError::InvalidAuthor));
    assert_eq!(parse(&format!("{tree}author A a> 1 +0000\n\nm")), Some(ObjectError::InvalidAuthor));
    assert_eq!(
        parse(&format!("{tree}{author}committer B <b> x +0000\n\nm")),
        Some(ObjectError::InvalidCommit)
    );
    assert_eq!(
        parse(&format!("{tree}{author}committer B <b> 2 +0000\nextra\n\nm")),
        Some(ObjectError::InvalidCommit)
    );
    assert_eq!(parse(&format!("{tree}{author}extra\n\nm")), Some(ObjectError::InvalidCommit));
}

#[test]
fn commit_signature_without_committer() {
    let text = b"tree 4b825dc642cb6eb9a060e54bf8d69288fbee4904\n\
author A <a@x.y> 1 +0000\n\
gpgsig -----BEGIN PGP SIGNATURE-----\n iQEz\n -----END PGP SIGNATURE-----\n\
\n\
msg\n"
        .to_vec();
    let c = CommitContents::parse(&text).unwrap();
    assert!(c.committer.is_none());
    assert_eq!(
        c.gpgsig.as_deref(),
        Some("-----BEGIN PGP SIGNATURE-----\n iQEz\n -----END PGP SIGNATURE-----")
    );
    assert_eq!(c.serialize(), text);
    let mut raw = format!("commit {}\0", text.len()).into_bytes();
    raw.extend(&text);
    let object = Object::parse(&raw).unwrap();
    let context = Context::new("/tmp/repo".to_string());
    let hash = object.compute_hash();
    let file = ObjectFile::new(&context, &hash);
    let bytes = file.file_contents(&object).unwrap();
    let loaded = file.parse(&bytes).unwrap();
    assert_eq!(loaded.kind(), ObjectKind::Commit);
    assert_eq!(loaded.size, object.size);
    assert_eq!(loaded.encode(), raw);
}

#[test]
fn error_messages_carry_context() {
    assert_eq!(
        Object::parse(b"blobx 3\0abc").err(),
        Some(ObjectError::InvalidKind(b"blobx".to_vec()))
    );
    assert_eq!(
        ObjectError::InvalidKind(b"tag".to_vec()).message(),
        "Invalid object type: tag"
    );
    assert_eq!(ObjectError::InvalidKind(vec![0xff]).message(), "Invalid object type");
    assert_eq!(Object::parse(b"blob 3\0abcd").err(), Some(ObjectError::CorruptObject(Some(3))));
    assert_eq!(
        ObjectError::CorruptObject(Some(3)).message(),
        "Corrupt object (invalid size: 3)"
    );
    assert_eq!(ObjectError::CorruptObject(None).message(), "Corrupt object");
}

#[test]
fn author_fields() {
    let a = Author::parse("Jane Doe <jane@example.com> 1700000000 -2359").unwrap();
    assert_eq!(a.name, "Jane Doe");
    assert_eq!(a.email, "jane@example.com");
    assert_eq!(a.timestamp, 1700000000);
    assert_eq!(a.timezone, "-2359");
    assert_eq!(Author::parse("A <a> 4294967296 +0000").err(), Some(ObjectError::InvalidAuthor));
    assert_eq!(Author::parse("A <a> 4294967295 +0000").unwrap().timestamp, 4294967295);
    assert_eq!(Author::parse("A <a> 1 -2400").err(), Some(ObjectError::InvalidAuthor));
    assert_eq!(Author::parse("A <a> 1").err(), Some(ObjectError::InvalidAuthor));
}

#[test]
fn object_header_errors() {
    let parse = |t: &[u8]| Object::parse(t).err();
    assert_eq!(parse(b"blub 3\0abc"), Some(ObjectError::InvalidKind(b"blub".to_vec())));
    assert_eq!(parse(b"blob"), Some(ObjectError::CorruptObject(None)));
    assert_eq!(parse(b"blob 3abc"), Some(ObjectError::CorruptObject(None)));
    assert_eq!(parse(b"blob 4\0abc"), Some(ObjectError::CorruptObject(Some(4))));
    assert_eq!(parse(b"blob x\0abc"), Some(ObjectError::CorruptObject(None)));
    assert_eq!(parse(b"commit 1\0\xff"), Some(ObjectError::NotUtf8));
}

#[test]
fn object_parse_by_kind() {
    let o = Object::parse(b"blob 3\0abc").unwrap();
    assert_eq!(o.kind(), ObjectKind::Blob);
    assert_eq!(o.size, 3);
    match &o.contents {
        Contents::Blob(b) => assert_eq!(b.try_string(), Ok("abc".to_string())),
        _ => panic!("not a blob"),
    }
    let mut raw = format!("tree {}\0", tree_payload().len()).into_bytes();
    raw.extend(tree_payload());
    let t = Object::parse(&raw).unwrap();
    assert_eq!(t.kind(), ObjectKind::Tree);
    assert_eq!(t.encode(), raw);
    let mut raw = format!("commit {}\0", root_commit().len()).into_bytes();
    raw.extend(root_commit());
    let c = Object::parse(&raw).unwrap();
    assert_eq!(c.kind(), ObjectKind::Commit);
    assert_eq!(c.encode(), raw);
}

#[test]
fn blob_text_rejects_invalid_utf8() {
    let o = Object::new_blob(&[0xff, 0xfe]);
    match &o.contents {
        Contents::Blob(b) => assert_eq!(b.try_string(), Err(ObjectError::NotUtf8)),
        _ => panic!("not a blob"),
    }
}

#[test]
fn kind_names() {
    assert_eq!(ObjectKind::parse(b"tree"), Ok(ObjectKind::Tree));
    assert_eq!(ObjectKind::from_str("commit"), Ok(ObjectKind::Commit));
    assert_eq!(ObjectKind::parse(b"blobs"), Err(ObjectError::InvalidKind(b"blobs".to_vec())));
    assert_eq!(ObjectKind::Blob.name(), "blob");
    assert_eq!(ObjectKind::Commit.name(), "commit");
}

#[test]
fn store_paths() {
    let context = Context::new("/tmp/repo".to_string());
    assert_eq!(context.git_dir, "/tmp/repo/.git");
    assert_eq!(context.object_dir(TEST_HASH), "/tmp/repo/.git/objects/6d");
    assert_eq!(
        context.object_path(TEST_HASH),
        "/tmp/repo/.git/objects/6d/e7b8c69d65923eb48b10a560f3d72939df256a"
    );
}

#[test]
fn save_then_load_keeps_the_object() {
    let context = Context::new("/tmp/repo".to_string());
    let objects = vec![
        Object::new_blob(b"This is a test file.\n"),
        Object::parse(&{
            let mut raw = format!("tree {}\0", tree_payload().len()).into_bytes();
            raw.extend(tree_payload());
            raw
        })
        .unwrap(),
        Object::new_blob(b""),
    ];
    for object in objects {
        let hash = object.compute_hash();
        assert_eq!(hash.len(), 40);
        assert!(hash.chars().all(|c| c.is_ascii_hexdigit() && !c.is_ascii_uppercase()));
        let file = ObjectFile::new(&context, &hash);
        let bytes = file.file_contents(&object).unwrap();
        let again = file.file_contents(&object).unwrap();
        assert_eq!(bytes, again);
        let loaded = file.parse(&bytes).unwrap();
        assert_eq!(loaded.kind(), object.kind());
        assert_eq!(loaded.size, object.size);
        assert_eq!(loaded.encode(), object.encode());
        assert_eq!(loaded.compute_hash(), hash);
    }
}

#[test]
fn load_rejects_corrupt_file() {
    let context = Context::new("/tmp/repo".to_string());
    let file = ObjectFile::new(&context, TEST_HASH);
    assert_eq!(file.parse(b"garbage").err(), Some(ObjectError::CorruptObject(None)));
}

#[test]
fn cat_file_modes() {
    let blob = Object::new_blob(b"hello\n");
    assert_eq!(cat_file_output(&blob, DisplayFlag::Exists), Ok(vec![]));
    assert_eq!(cat_file_output(&blob, DisplayFlag::Pretty), Ok(b"hello\n".to_vec()));
    assert_eq!(cat_file_output(&blob, DisplayFlag::Size), Ok(b"6\n".to_vec()));
    assert_eq!(cat_file_output(&blob, DisplayFlag::Type), Ok(b"blob\n".to_vec()));
    let binary = Object::new_blob(&[0xc3]);
    assert_eq!(cat_file_output(&binary, DisplayFlag::Pretty), Err(ObjectError::NotUtf8));
    let mut raw = format!("tree {}\0", tree_payload().len()).into_bytes();
    raw.extend(tree_payload());
    let tree = Object::parse(&raw).unwrap();
    assert_eq!(
        cat_file_output(&tree, DisplayFlag::Pretty),
        Ok(b"100644 blob 000102030405060708090a0b0c0d0e0f10111213\ta.txt\n".to_vec())
    );
    assert_eq!(cat_file_output(&tree, DisplayFlag::Type), Ok(b"tree\n".to_vec()));
    assert_eq!(cat_file_output(&tree, DisplayFlag::Size), Ok(b"33\n".to_vec()));
}

#[test]
fn display_flag_precedence() {
    assert_eq!(DisplayFlag::from_flags(true, true, false, false), DisplayFlag::Exists);
    assert_eq!(DisplayFlag::from_flags(false, true, true, false), DisplayFlag::Pretty);
    assert_eq!(DisplayFlag::from_flags(false, false, true, true), DisplayFlag::Size);
    assert_eq!(DisplayFlag::from_flags(false, false, false, false), DisplayFlag::Type);
}

#[test]
fn ls_tree_steps() {
    let mut raw = format!("tree {}\0", tree_payload().len()).into_bytes();
    raw.extend(tree_payload());
    let tree = Object::parse(&raw).unwrap();
    match ls_tree_step(&tree, true) {
        TreeListing::Lines(lines) => assert_eq!(lines, vec!["a.txt".to_string()]),
        _ => panic!("expected lines"),
    }
    match ls_tree_step(&tree, false) {
        TreeListing::Lines(lines) => assert_eq!(
            lines,
            vec!["100644 blob 000102030405060708090a0b0c0d0e0f10111213\ta.txt".to_string()]
        ),
        _ => panic!("expected lines"),
    }
    let mut raw = format!("commit {}\0", root_commit().len()).into_bytes();
    raw.extend(root_commit());
    let commit = Object::parse(&raw).unwrap();
    match ls_tree_step(&commit, false) {
        TreeListing::Follow(hash) => assert_eq!(hash, "4b825dc642cb6eb9a060e54bf8d69288fbee4904"),
        _ => panic!("expected a tree to follow"),
    }
    assert!(matches!(
        ls_tree_step(&Object::new_blob(b"x"), false),
        TreeListing::NotATree
    ));
}

#[test]
fn file_named_by_another_hash_is_refused() {
    let context = Context::new("/tmp/repo".to_string());
    let object = Object::new_blob(b"other contents\n");
    let file = ObjectFile::new(&context, TEST_HASH);
    assert_eq!(file.file_contents(&object), Err(ObjectError::HashMismatch));
}

#[test]
fn tree_keeps_modes_as_written() {
    let mut p = b"040000 sub\0".to_vec();
    p.extend([3u8; 20]);
    let tree = TreeContents::parse(&p).unwrap();
    assert_eq!(tree.lines[0].mode, "040000");
    assert_eq!(tree.lines[0].perms, "040000");
    assert_eq!(tree.lines[0].kind, ObjectKind::Tree);
    assert_eq!(tree.serialize(), p);
    let mut q = b"644 f\0".to_vec();
    q.extend([4u8; 20]);
    let tree = TreeContents::parse(&q).unwrap();
    assert_eq!(tree.lines[0].mode, "644");
    assert_eq!(tree.lines[0].perms, "000644");
    assert_eq!(tree.serialize(), q);
}

#[test]
fn signature_after_non_ascii_separator() {
    let text = "tree 4b825dc642cb6eb9a060e54bf8d69288fbee4904\n\
author A <a@x.y> 1 +0000\n\
gpgsig\u{e9}-----BEGIN PGP SIGNATURE-----\n abc\n -----END PGP SIGNATURE-----\n\
\n\
msg";
    let c = CommitContents::parse(text.as_bytes()).unwrap();
    assert_eq!(
        c.gpgsig.as_deref(),
        Some("-----BEGIN PGP SIGNATURE-----\n abc\n -----END PGP SIGNATURE-----")
    );
}

#[test]
fn messages_for_every_error() {
    assert_eq!(ObjectError::InvalidHash.message(), "Invalid hash length");
    assert_eq!(ObjectError::NotFound.message(), "No object found");
    assert_eq!(ObjectError::AmbiguousHash.message(), "Ambiguous hash");
    assert_eq!(ObjectError::NotUtf8.message(), "Not valid UTF-8");
    assert_eq!(ObjectError::MissingMessage.message(), "Missing commit message");
    assert_eq!(ObjectError::MissingTree.message(), "Expected tree hash");
    assert_eq!(ObjectError::MissingAuthor.message(), "Expected author");
    assert_eq!(ObjectError::InvalidAuthor.message(), "Invalid author format");
    assert_eq!(ObjectError::InvalidCommit.message(), "Invalid commit");
    assert_eq!(
        ObjectError::CorruptObject(Some(1234)).message(),
        "Corrupt object (invalid size: 1234)"
    );
    assert_eq!(
        Object::parse(b"tag 1\0x").err().unwrap().message(),
        "Invalid object type: tag"
    );
}
