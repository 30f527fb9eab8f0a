//! How objects sit on disk: compressed frames under `objects/<2 hex>/<38 hex>`.
use vstd::prelude::*;
use crate::compress::{inflate_of, zlib_compress, zlib_decompress, zlib_of};
use crate::digest::{is_object_id, push_char};
use crate::error::GotError;
use crate::object::{decode_frame, decode_frame_spec, frame, GitObject, ObjectKind};

verus! {

/// The name of the directory that holds the objects.
pub open spec fn objects_dir_name() -> Seq<char> {
    seq!['o', 'b', 'j', 'e', 'c', 't', 's']
}

/// Where the object named `id` sits, relative to the metadata directory:
/// `objects/`, the first two digits, `/`, the other thirty-eight.
pub open spec fn object_rel_path(id: Seq<char>) -> Seq<char> {
    objects_dir_name() + seq!['/'] + id.subrange(0, 2) + seq!['/'] + id.subrange(2, id.len() as int)
}

/// Appends `src[from..to]` to `s`.
pub(crate) fn push_range(s: &mut String, src: &str, from: usize, to: usize)
    requires
        from <= to <= src@.len(),
    ensures
        final(s)@ == old(s)@ + src@.subrange(from as int, to as int),
{
    let mut i: usize = from;
    while i < to
        invariant
            from <= i <= to <= src@.len(),
            s@ == old(s)@ + src@.subrange(from as int, i as int),
        decreases to - i,
    {
        push_char(s, src.get_char(i));
        assert(src@.subrange(from as int, i + 1) =~= src@.subrange(from as int, i as int).push(src@[i as int]));
        i = i + 1;
    }
}

/// The path of the object named by the full identifier `sha`, relative to
/// the metadata directory.
pub fn shard_path(sha: &str) -> (r: String)
    requires
        is_object_id(sha@),
    ensures
        r@ == object_rel_path(sha@),
{
    proof {
        reveal_strlit("objects/");
    }
    let mut p = "objects/".to_owned();
    push_range(&mut p, sha, 0, 2);
    push_char(&mut p, '/');
    push_range(&mut p, sha, 2, 40);
    assert(p@ =~= object_rel_path(sha@));
    p
}

/// The path of the object named `sha`, relative to the metadata directory;
/// `None` unless `sha` is a full identifier.
pub fn object_path(sha: &str) -> (r: Option<String>)
    ensures
        r matches Some(p) ==> is_object_id(sha@) && p@ == object_rel_path(sha@),
        r is None ==> !is_object_id(sha@),
{
    if crate::digest::check_object_id(sha) {
        Some(shard_path(sha))
    } else {
        None
    }
}

/// What reading stored bytes yields: the object in the decompressed frame,
/// or `Malformed` when they do not decompress.
pub open spec fn decode_stored_spec(data: Seq<u8>) -> Result<(ObjectKind, Seq<u8>), GotError> {
    match inflate_of(data) {
        None => Err(GotError::Malformed),
        Some(f) => decode_frame_spec(f),
    }
}

/// The bytes an object is stored as: its frame, zlib-compressed.
pub fn encode_object(object: &GitObject) -> (r: Vec<u8>)
    ensures
        r@ == zlib_of(frame(object.kind(), object.payload())),
{
    let f = object.content_with_headers();
    zlib_compress(f.as_slice())
}

/// Reads an object back from its stored bytes. Bytes that `encode_object`
/// produced give back the object that was encoded.
pub fn decode_object(data: &[u8]) -> (r: Result<GitObject, GotError>)
    ensures
        match decode_stored_spec(data@) {
            Ok((k, p)) => r matches Ok(o) && o.kind() == k && o.payload() == p,
            Err(e) => r matches Err(e2) && e2 == e,
        },
        forall|k: ObjectKind, p: Seq<u8>|
            #![trigger zlib_of(frame(k, p))]
            data@ == zlib_of(frame(k, p)) ==> (r is Ok && r->Ok_0.kind() == k && r->Ok_0.payload() == p),
        forall|x: Seq<u8>| #![trigger zlib_of(x)] data@ == zlib_of(x) ==> decode_stored_spec(data@) == decode_frame_spec(x),
{
    let inflated = zlib_decompress(data);
    assert forall|x: Seq<u8>| #![trigger zlib_of(x)] data@ == zlib_of(x) implies decode_stored_spec(data@) == decode_frame_spec(x) by {
        assert(inflated is Some && inflated->Some_0@ == x);
    }
    match inflated {
        None => Err(GotError::Malformed),
        Some(f) => {
            let r = decode_frame(f.as_slice());
            assert forall|k: ObjectKind, p: Seq<u8>|
                #![trigger zlib_of(frame(k, p))]
                data@ == zlib_of(frame(k, p)) implies (r is Ok && r->Ok_0.kind() == k && r->Ok_0.payload() == p) by {
                crate::object::lemma_frame_round_trip(k, p);
            }
            r
        },
    }
}

} // verus!
