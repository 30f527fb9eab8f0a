use got::codec::{parse_decimal, render_decimal};
use got::digest::{check_object_id, hex_lower};
use got::error::GotError;
use got::object::{decode_frame, kind_from_str, Blob, GitObject, ObjectKind, Serialise, Tree};
use got::store::{decode_object, encode_object, object_path, shard_path};

fn blob(text: &str) -> GitObject {
    GitObject::new("blob", text.as_bytes().to_vec()).unwrap()
}

#[test]
fn new_accepts_the_four_type_names() {
    for (name, kind) in [
        ("commit", ObjectKind::Commit),
        ("tree", ObjectKind::Tree),
        ("tag", ObjectKind::Tag),
        ("blob", ObjectKind::Blob),
    ] {
        let o = GitObject::new(name, b"x".to_vec()).unwrap();
        assert_eq!(o.object_kind(), kind);
        assert_eq!(o.type_string(), name);
        assert_eq!(o.serialise(), &b"x".to_vec());
    }
}

#[test]
fn new_rejects_unknown_type_name() {
    assert!(matches!(GitObject::new("widget", vec![]), Err(GotError::InvalidType)));
    assert!(matches!(GitObject::new("Blob", vec![]), Err(GotError::InvalidType)));
    assert!(matches!(GitObject::new("", vec![]), Err(GotError::InvalidType)));
    assert_eq!(kind_from_str("blobs"), None);
}

#[test]
fn header_and_frame_layout() {
    let o = blob("hello");
    assert_eq!(o.encoded_header(), b"blob 5\0".to_vec());
    assert_eq!(o.content_with_headers(), b"blob 5\0hello".to_vec());
    let c = GitObject::new("commit", vec![]).unwrap();
    assert_eq!(c.content_with_headers(), b"commit 0\0".to_vec());
}

#[test]
fn hash_matches_known_digests() {
    assert_eq!(blob("hello world").hash(), "95d09f2b10159347eece71399a7e2e907ea3df4f");
    assert_eq!(blob("hello world\n").hash(), "3b18e512dba79e4c8300dd08aeb37f8e728b8dad");
    assert_eq!(blob("").hash(), "e69de29bb2d1d6434b8b29ae775ad8c2e48c5391");
}

#[test]
fn frame_round_trip() {
    for name in ["commit", "tree", "tag", "blob"] {
        for payload in [&b""[..], &b"hello"[..], &b"a \0 b\0\n"[..], &[0u8, 255, 32][..]] {
            let o = GitObject::new(name, payload.to_vec()).unwrap();
            let back = decode_frame(&o.content_with_headers()).unwrap();
            assert_eq!(back.type_string(), name);
            assert_eq!(back.serialise(), &payload.to_vec());
        }
    }
}

#[test]
fn digest_is_deterministic_and_content_sensitive() {
    let a = blob("some content");
    let b = blob("some content");
    assert_eq!(a.hash(), b.hash());
    let c = blob("some contend");
    assert_ne!(a.hash(), c.hash());
    let t = GitObject::new("tag", b"some content".to_vec()).unwrap();
    assert_ne!(a.hash(), t.hash());
}

#[test]
fn length_mismatch_is_malformed() {
    assert!(matches!(decode_frame(b"blob 6\0hello"), Err(GotError::Malformed)));
    assert!(matches!(decode_frame(b"blob 4\0hello"), Err(GotError::Malformed)));
    assert!(matches!(decode_frame(b"blob 0\0x"), Err(GotError::Malformed)));
}

#[test]
fn unknown_type_token_is_rejected() {
    assert!(matches!(decode_frame(b"widget 5\0hello"), Err(GotError::InvalidType)));
}

#[test]
fn broken_headers_are_malformed() {
    assert!(matches!(decode_frame(b"blob5\0hello"), Err(GotError::Malformed)));
    assert!(matches!(decode_frame(b"blob 5hello"), Err(GotError::Malformed)));
    assert!(matches!(decode_frame(b"blob x\0hello"), Err(GotError::Malformed)));
    assert!(matches!(decode_frame(b"blob \0"), Err(GotError::Malformed)));
    assert!(matches!(decode_frame(b""), Err(GotError::Malformed)));
}

#[test]
fn nul_before_first_space_is_malformed() {
    assert!(matches!(decode_frame(b"ab\0c 1\0x"), Err(GotError::Malformed)));
    assert!(matches!(decode_frame(b"blob\0 5\0hello"), Err(GotError::Malformed)));
}

#[test]
fn compressed_malformed_frame_is_malformed() {
    let bad = GitObject::new("blob", b"x".to_vec()).unwrap();
    let mut frame = bad.content_with_headers();
    frame.push(b'y');
    let mut enc = flate2::write::ZlibEncoder::new(Vec::new(), flate2::Compression::fast());
    std::io::Write::write_all(&mut enc, &frame).unwrap();
    let stored = enc.finish().unwrap();
    assert!(matches!(decode_object(&stored), Err(GotError::Malformed)));
}

#[test]
fn encoding_is_byte_identical_on_rewrite() {
    let a = encode_object(&blob("same"));
    let b = encode_object(&blob("same"));
    assert_eq!(a, b);
}

#[test]
fn leading_zeros_in_declared_length_are_read() {
    let o = decode_frame(b"blob 05\0hello").unwrap();
    assert_eq!(o.serialise(), &b"hello".to_vec());
}

#[test]
fn blob_and_tree_serialise() {
    let b = Blob::new(b"hello world".to_vec());
    assert_eq!(b.serialise(), &b"hello world".to_vec());
    assert_eq!(b.encoded_header(), b"blob 11\0".to_vec());
    assert_eq!(b.hash(), "95d09f2b10159347eece71399a7e2e907ea3df4f");
    let t = Tree::new(b"abc".to_vec());
    assert_eq!(t.encoded_header(), b"tree 3\0".to_vec());
    assert_eq!(t.content_with_headers(), b"tree 3\0abc".to_vec());
    assert_eq!(t.hash(), GitObject::new("tree", b"abc".to_vec()).unwrap().hash());
}

#[test]
fn store_write_read_identity() {
    let o = blob("hello world");
    let stored = encode_object(&o);
    assert_ne!(stored, o.content_with_headers());
    let back = decode_object(&stored).unwrap();
    assert_eq!(back.object_kind(), ObjectKind::Blob);
    assert_eq!(back.serialise(), &b"hello world".to_vec());
}

#[test]
fn undecompressable_bytes_are_malformed() {
    assert!(matches!(decode_object(b"not zlib at all"), Err(GotError::Malformed)));
    assert!(matches!(decode_object(b""), Err(GotError::Malformed)));
}

#[test]
fn sharded_object_path() {
    assert_eq!(
        object_path("0db144f804c5e452b7b3574ebc77c0256e746d86").unwrap(),
        "objects/0d/b144f804c5e452b7b3574ebc77c0256e746d86"
    );
    assert_eq!(object_path("0db144"), None);
    assert_eq!(object_path("0DB144F804C5E452B7B3574EBC77C0256E746D86"), None);
    assert_eq!(object_path("0db144f804c5e452b7b3574ebc77c0256e746d8g"), None);
}

#[test]
fn shard_path_splits_two_and_thirty_eight() {
    let id = blob("hello world").hash();
    assert_eq!(shard_path(&id), "objects/95/d09f2b10159347eece71399a7e2e907ea3df4f");
}

#[test]
fn object_id_check() {
    assert!(check_object_id("95d09f2b10159347eece71399a7e2e907ea3df4f"));
    assert!(!check_object_id("95d09f2b10159347eece71399a7e2e907ea3df4"));
    assert!(!check_object_id(""));
}

#[test]
fn decimal_render_and_parse() {
    assert_eq!(render_decimal(0), b"0".to_vec());
    assert_eq!(render_decimal(7), b"7".to_vec());
    assert_eq!(render_decimal(1230), b"1230".to_vec());
    assert_eq!(render_decimal(usize::MAX), usize::MAX.to_string().into_bytes());
    assert_eq!(parse_decimal(b"1230"), Some(1230));
    assert_eq!(parse_decimal(b"007"), Some(7));
    assert_eq!(parse_decimal(b""), None);
    assert_eq!(parse_decimal(b"+5"), None);
    assert_eq!(parse_decimal(b"12a"), None);
    assert_eq!(parse_decimal(usize::MAX.to_string().as_bytes()), Some(usize::MAX));
    assert_eq!(parse_decimal(b"99999999999999999999999"), None);
}

#[test]
fn hex_rendering() {
    assert_eq!(hex_lower(&[0x00, 0x0f, 0xa0, 0xff]), "000fa0ff");
    assert_eq!(hex_lower(&[]), "");
}
