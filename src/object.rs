//! The closed set of object types and the frame that stores them.
use vstd::prelude::*;
use crate::codec::{
    decimal, find, find_from, is_decimal, decimal_value, lemma_decimal, lemma_find,
    parse_decimal, render_decimal, bytes_equal, copy_range, lemma_find_at, NUL, SPACE,
};
use crate::digest::{digest_of, frame_digest, is_object_id};
use crate::error::GotError;

verus! {

/// The four kinds of stored object.
#[derive(Clone, Copy, Debug, PartialEq, Eq, Structural)]
pub enum ObjectKind {
    Commit,
    Tree,
    Tag,
    Blob,
}

/// The type name of a kind, as characters.
pub open spec fn kind_str(k: ObjectKind) -> Seq<char> {
    match k {
        ObjectKind::Commit => seq!['c', 'o', 'm', 'm', 'i', 't'],
        ObjectKind::Tree => seq!['t', 'r', 'e', 'e'],
        ObjectKind::Tag => seq!['t', 'a', 'g'],
        ObjectKind::Blob => seq!['b', 'l', 'o', 'b'],
    }
}

/// The type name of a kind, as the ASCII bytes of a frame header.
pub open spec fn kind_name(k: ObjectKind) -> Seq<u8> {
    kind_str(k).map_values(|c: char| c as u8)
}

/// The kind whose type name is `s`, if any.
pub open spec fn kind_of_str(s: Seq<char>) -> Option<ObjectKind> {
    if s == kind_str(ObjectKind::Commit) {
        Some(ObjectKind::Commit)
    } else if s == kind_str(ObjectKind::Tree) {
        Some(ObjectKind::Tree)
    } else if s == kind_str(ObjectKind::Tag) {
        Some(ObjectKind::Tag)
    } else if s == kind_str(ObjectKind::Blob) {
        Some(ObjectKind::Blob)
    } else {
        None
    }
}

/// The kind whose type name has the bytes `s`, if any.
pub open spec fn kind_of_name(s: Seq<u8>) -> Option<ObjectKind> {
    if s == kind_name(ObjectKind::Commit) {
        Some(ObjectKind::Commit)
    } else if s == kind_name(ObjectKind::Tree) {
        Some(ObjectKind::Tree)
    } else if s == kind_name(ObjectKind::Tag) {
        Some(ObjectKind::Tag)
    } else if s == kind_name(ObjectKind::Blob) {
        Some(ObjectKind::Blob)
    } else {
        None
    }
}

/// The frame header: `<type> <decimal length>\0`.
pub open spec fn header(k: ObjectKind, len: nat) -> Seq<u8> {
    kind_name(k) + seq![SPACE] + decimal(len) + seq![NUL]
}

/// The stored frame of a payload: its header, then the payload itself.
pub open spec fn frame(k: ObjectKind, payload: Seq<u8>) -> Seq<u8> {
    header(k, payload.len()) + payload
}

/// What decoding a frame yields: its kind and payload, or why it was refused.
///
/// The type token runs up to the first space and the declared length from
/// there to the first NUL of the frame, which must come after that space; the
/// payload is everything after that NUL.
pub open spec fn decode_frame_spec(f: Seq<u8>) -> Result<(ObjectKind, Seq<u8>), GotError> {
    match (find(f, SPACE), find(f, NUL)) {
        (Some(sp), Some(nul)) => {
            if nul <= sp {
                Err(GotError::Malformed)
            } else {
                let size = f.subrange(sp + 1 as int, nul as int);
                let payload = f.subrange(nul + 1 as int, f.len() as int);
                if !(is_decimal(size) && decimal_value(size) == payload.len()) {
                    Err(GotError::Malformed)
                } else {
                    match kind_of_name(f.subrange(0, sp as int)) {
                        Some(kind) => Ok((kind, payload)),
                        None => Err(GotError::InvalidType),
                    }
                }
            }
        },
        _ => Err(GotError::Malformed),
    }
}

/// A stored object: its kind and its raw payload.
pub enum GitObject {
    Commit(Vec<u8>),
    Blob(Vec<u8>),
    Tag(Vec<u8>),
    Tree(Vec<u8>),
}

impl GitObject {
    /// The object's kind.
    pub open spec fn kind(&self) -> ObjectKind {
        match self {
            GitObject::Commit(_) => ObjectKind::Commit,
            GitObject::Blob(_) => ObjectKind::Blob,
            GitObject::Tag(_) => ObjectKind::Tag,
            GitObject::Tree(_) => ObjectKind::Tree,
        }
    }

    /// The object's payload.
    pub open spec fn payload(&self) -> Seq<u8> {
        match self {
            GitObject::Commit(p) => p@,
            GitObject::Blob(p) => p@,
            GitObject::Tag(p) => p@,
            GitObject::Tree(p) => p@,
        }
    }

    /// Builds the object of kind `k` around `content`.
    pub fn of_kind(k: ObjectKind, content: Vec<u8>) -> (r: GitObject)
        ensures
            r.kind() == k,
            r.payload() == content@,
    {
        match k {
            ObjectKind::Commit => GitObject::Commit(content),
            ObjectKind::Blob => GitObject::Blob(content),
            ObjectKind::Tag => GitObject::Tag(content),
            ObjectKind::Tree => GitObject::Tree(content),
        }
    }

    /// Builds an object from a type name; fails with `InvalidType` unless the
    /// name is `commit`, `blob`, `tag` or `tree`.
    pub fn new(type_str: &str, content: Vec<u8>) -> (r: Result<GitObject, GotError>)
        ensures
            match kind_of_str(type_str@) {
                Some(k) => r matches Ok(o) && o.kind() == k && o.payload() == content@,
                None => r == Err::<GitObject, GotError>(GotError::InvalidType),
            },
    {
        match kind_from_str(type_str) {
            Some(k) => Ok(GitObject::of_kind(k, content)),
            None => Err(GotError::InvalidType),
        }
    }

    /// The kind of this object.
    pub fn object_kind(&self) -> (r: ObjectKind)
        ensures
            r == self.kind(),
    {
        match self {
            GitObject::Commit(_) => ObjectKind::Commit,
            GitObject::Blob(_) => ObjectKind::Blob,
            GitObject::Tag(_) => ObjectKind::Tag,
            GitObject::Tree(_) => ObjectKind::Tree,
        }
    }

    /// The type name of this object.
    pub fn type_string(&self) -> (r: String)
        ensures
            r@ == kind_str(self.kind()),
    {
        kind_string(self.object_kind())
    }

    /// The raw payload, without any header.
    pub fn serialise(&self) -> (r: &Vec<u8>)
        ensures
            r@ == self.payload(),
    {
        match self {
            GitObject::Commit(content) => content,
            GitObject::Blob(content) => content,
            GitObject::Tag(content) => content,
            GitObject::Tree(content) => content,
        }
    }

    /// The full stored frame: header followed by payload.
    pub fn content_with_headers(&self) -> (r: Vec<u8>)
        ensures
            r@ == frame(self.kind(), self.payload()),
    {
        encode_frame(self.object_kind(), self.serialise())
    }

    /// The frame header `<type> <length>\0`.
    pub fn encoded_header(&self) -> (r: Vec<u8>)
        ensures
            r@ == header(self.kind(), self.payload().len()),
    {
        encode_header(self.object_kind(), self.serialise().len())
    }

    /// The object's identifier: the SHA-1 of its frame, in lowercase hex.
    pub fn hash(&self) -> (r: String)
        ensures
            r@ == frame_digest(frame(self.kind(), self.payload())),
            is_object_id(r@),
    {
        let f = self.content_with_headers();
        digest_of(f.as_slice())
    }
}

/// Two objects of the same kind and payload have the same identifier.
pub proof fn lemma_digest_deterministic(a: GitObject, b: GitObject)
    requires
        a.kind() == b.kind(),
        a.payload() == b.payload(),
    ensures
        frame_digest(frame(a.kind(), a.payload())) == frame_digest(frame(b.kind(), b.payload())),
{
}

/// A value that is stored as an object of one fixed kind.
pub trait Serialise {
    /// The kind it is stored as.
    spec fn kind_spec(&self) -> ObjectKind;

    /// Its payload.
    spec fn payload_spec(&self) -> Seq<u8>;

    /// The raw payload, without any header.
    fn serialise(&self) -> (r: &Vec<u8>)
        ensures
            r@ == self.payload_spec(),
    ;

    /// The full stored frame.
    fn content_with_headers(&self) -> (r: Vec<u8>)
        ensures
            r@ == frame(self.kind_spec(), self.payload_spec()),
    ;

    /// The frame header.
    fn encoded_header(&self) -> (r: Vec<u8>)
        ensures
            r@ == header(self.kind_spec(), self.payload_spec().len()),
    ;

    /// The identifier: the SHA-1 of the frame, in lowercase hex.
    fn hash(&self) -> (r: String)
        ensures
            r@ == frame_digest(frame(self.kind_spec(), self.payload_spec())),
    ;
}

/// File contents, stored as a `blob`.
pub struct Blob {
    content: Vec<u8>,
}

impl Blob {
    /// Wraps `content` as a blob.
    pub fn new(content: Vec<u8>) -> (r: Blob)
        ensures
            r.payload_spec() == content@,
    {
        Blob { content }
    }
}

impl Serialise for Blob {
    open spec fn kind_spec(&self) -> ObjectKind {
        ObjectKind::Blob
    }

    closed spec fn payload_spec(&self) -> Seq<u8> {
        self.content@
    }

    fn serialise(&self) -> (r: &Vec<u8>) {
        &self.content
    }

    fn content_with_headers(&self) -> (r: Vec<u8>) {
        encode_frame(ObjectKind::Blob, &self.content)
    }

    fn encoded_header(&self) -> (r: Vec<u8>) {
        encode_header(ObjectKind::Blob, self.content.len())
    }

    fn hash(&self) -> (r: String) {
        let f = self.content_with_headers();
        digest_of(f.as_slice())
    }
}

/// A directory listing, stored as a `tree`; its payload is opaque here.
pub struct Tree {
    content: Vec<u8>,
}

impl Tree {
    /// Wraps `content` as a tree.
    pub fn new(content: Vec<u8>) -> (r: Tree)
        ensures
            r.payload_spec() == content@,
    {
        Tree { content }
    }
}

impl Serialise for Tree {
    open spec fn kind_spec(&self) -> ObjectKind {
        ObjectKind::Tree
    }

    closed spec fn payload_spec(&self) -> Seq<u8> {
        self.content@
    }

    fn serialise(&self) -> (r: &Vec<u8>) {
        &self.content
    }

    fn content_with_headers(&self) -> (r: Vec<u8>) {
        encode_frame(ObjectKind::Tree, &self.content)
    }

    fn encoded_header(&self) -> (r: Vec<u8>) {
        encode_header(ObjectKind::Tree, self.content.len())
    }

    fn hash(&self) -> (r: String) {
        let f = self.content_with_headers();
        digest_of(f.as_slice())
    }
}

/// Whether two strings hold the same characters.
pub(crate) fn same_chars(a: &str, b: &str) -> (r: bool)
    ensures
        r == (a@ == b@),
{
    let n = a.unicode_len();
    if n != b.unicode_len() {
        return false;
    }
    let mut i: usize = 0;
    while i < n
        invariant
            n == a@.len(),
            n == b@.len(),
            i <= n,
            forall|j: int| 0 <= j < i ==> a@[j] == b@[j],
        decreases n - i,
    {
        if a.get_char(i) != b.get_char(i) {
            return false;
        }
        i = i + 1;
    }
    assert(a@ =~= b@);
    true
}

/// The kind named by `s`, if any.
pub fn kind_from_str(s: &str) -> (r: Option<ObjectKind>)
    ensures
        r == kind_of_str(s@),
{
    proof {
        reveal_strlit("commit");
        reveal_strlit("tree");
        reveal_strlit("tag");
        reveal_strlit("blob");
    }
    if same_chars(s, "commit") {
        assert("commit"@ =~= kind_str(ObjectKind::Commit));
        Some(ObjectKind::Commit)
    } else if same_chars(s, "tree") {
        assert("tree"@ =~= kind_str(ObjectKind::Tree));
        Some(ObjectKind::Tree)
    } else if same_chars(s, "tag") {
        assert("tag"@ =~= kind_str(ObjectKind::Tag));
        Some(ObjectKind::Tag)
    } else if same_chars(s, "blob") {
        assert("blob"@ =~= kind_str(ObjectKind::Blob));
        Some(ObjectKind::Blob)
    } else {
        assert("commit"@ =~= kind_str(ObjectKind::Commit));
        assert("tree"@ =~= kind_str(ObjectKind::Tree));
        assert("tag"@ =~= kind_str(ObjectKind::Tag));
        assert("blob"@ =~= kind_str(ObjectKind::Blob));
        None
    }
}

/// The type name of `k` as a `String`.
pub fn kind_string(k: ObjectKind) -> (r: String)
    ensures
        r@ == kind_str(k),
{
    proof {
        reveal_strlit("commit");
        reveal_strlit("tree");
        reveal_strlit("tag");
        reveal_strlit("blob");
    }
    let r = match k {
        ObjectKind::Commit => "commit".to_owned(),
        ObjectKind::Tree => "tree".to_owned(),
        ObjectKind::Tag => "tag".to_owned(),
        ObjectKind::Blob => "blob".to_owned(),
    };
    assert(r@ =~= kind_str(k));
    r
}

/// The type name of `k` as header bytes.
pub fn kind_name_bytes(k: ObjectKind) -> (r: Vec<u8>)
    ensures
        r@ == kind_name(k),
{
    let mut v: Vec<u8> = Vec::new();
    match k {
        ObjectKind::Commit => {
            v.push(99);
            v.push(111);
            v.push(109);
            v.push(109);
            v.push(105);
            v.push(116);
        },
        ObjectKind::Tree => {
            v.push(116);
            v.push(114);
            v.push(101);
            v.push(101);
        },
        ObjectKind::Tag => {
            v.push(116);
            v.push(97);
            v.push(103);
        },
        ObjectKind::Blob => {
            v.push(98);
            v.push(108);
            v.push(111);
            v.push(98);
        },
    }
    assert(v@ =~= kind_name(k));
    v
}

/// The kind whose type name has the bytes `s`, if any.
pub fn kind_from_name(s: &[u8]) -> (r: Option<ObjectKind>)
    ensures
        r == kind_of_name(s@),
{
    let commit = kind_name_bytes(ObjectKind::Commit);
    let tree = kind_name_bytes(ObjectKind::Tree);
    let tag = kind_name_bytes(ObjectKind::Tag);
    let blob = kind_name_bytes(ObjectKind::Blob);
    if bytes_equal(s, commit.as_slice()) {
        Some(ObjectKind::Commit)
    } else if bytes_equal(s, tree.as_slice()) {
        Some(ObjectKind::Tree)
    } else if bytes_equal(s, tag.as_slice()) {
        Some(ObjectKind::Tag)
    } else if bytes_equal(s, blob.as_slice()) {
        Some(ObjectKind::Blob)
    } else {
        None
    }
}

/// Facts about type names: each decodes to its own kind, is not empty, and
/// holds neither a space nor a NUL.
pub proof fn lemma_kind_name(k: ObjectKind)
    ensures
        kind_of_name(kind_name(k)) == Some(k),
        kind_name(k).len() > 0,
        forall|i: int| 0 <= i < kind_name(k).len() ==> kind_name(k)[i] != SPACE && kind_name(k)[i] != NUL,
{
    let c = kind_name(ObjectKind::Commit);
    let t = kind_name(ObjectKind::Tree);
    let g = kind_name(ObjectKind::Tag);
    let b = kind_name(ObjectKind::Blob);
    assert(c.len() == 6 && t.len() == 4 && g.len() == 3 && b.len() == 4);
    assert(t[0] != b[0]);
    assert(c =~= seq![99u8, 111, 109, 109, 105, 116]);
    assert(t =~= seq![116u8, 114, 101, 101]);
    assert(g =~= seq![116u8, 97, 103]);
    assert(b =~= seq![98u8, 108, 111, 98]);
}

/// Builds the header `<type> <len>\0`.
pub fn encode_header(k: ObjectKind, len: usize) -> (r: Vec<u8>)
    ensures
        r@ == header(k, len as nat),
{
    let mut h = kind_name_bytes(k);
    h.push(SPACE);
    let mut digits = render_decimal(len);
    h.append(&mut digits);
    h.push(NUL);
    assert(h@ =~= header(k, len as nat));
    h
}

/// Builds the frame of `payload` as an object of kind `k`.
pub fn encode_frame(k: ObjectKind, payload: &Vec<u8>) -> (r: Vec<u8>)
    ensures
        r@ == frame(k, payload@),
{
    let mut f = encode_header(k, payload.len());
    let mut i: usize = 0;
    while i < payload.len()
        invariant
            i <= payload@.len(),
            f@ == header(k, payload@.len()) + payload@.subrange(0, i as int),
        decreases payload@.len() - i,
    {
        f.push(payload[i]);
        assert(payload@.subrange(0, i + 1) =~= payload@.subrange(0, i as int).push(payload@[i as int]));
        i = i + 1;
    }
    assert(payload@.subrange(0, i as int) =~= payload@);
    f
}

/// Decodes a stored frame into an object, checking the declared length and
/// the type name.
pub fn decode_frame(f: &[u8]) -> (r: Result<GitObject, GotError>)
    ensures
        match decode_frame_spec(f@) {
            Ok((k, p)) => r matches Ok(o) && o.kind() == k && o.payload() == p,
            Err(e) => r matches Err(e2) && e2 == e,
        },
{
    let len = f.len();
    assert(f@.subrange(0, f@.len() as int) =~= f@);
    let sp = match find_from(f, 0, SPACE) {
        Some(i) => i,
        None => return Err(GotError::Malformed),
    };
    let nul = match find_from(f, 0, NUL) {
        Some(i) => i,
        None => return Err(GotError::Malformed),
    };
    if nul <= sp {
        return Err(GotError::Malformed);
    }
    let declared = parse_decimal(&f[sp + 1..nul]);
    let payload = copy_range(f, nul + 1, len);
    match declared {
        Some(n) => {
            if n != payload.len() {
                return Err(GotError::Malformed);
            }
        },
        None => return Err(GotError::Malformed),
    }
    match kind_from_name(&f[0..sp]) {
        Some(k) => Ok(GitObject::of_kind(k, payload)),
        None => Err(GotError::InvalidType),
    }
}

/// In `t + " " + digits + "\0" + p`, where `t` holds no space and the digits
/// render `n`, the first space ends `t`; the first NUL is the one after the
/// digits, unless `t` holds a NUL, which then comes before the space.
proof fn lemma_frame_tokens(t: Seq<u8>, n: nat, p: Seq<u8>)
    requires
        forall|i: int| 0 <= i < t.len() ==> t[i] != SPACE,
    ensures
        ({
            let d = decimal(n);
            let f = t + seq![SPACE] + d + seq![NUL] + p;
            let sp = t.len();
            let nul = t.len() + 1 + d.len();
            &&& find(f, SPACE) == Some(sp)
            &&& match find(f, NUL) {
                Some(i) => (i < sp && find(t, NUL) is Some) || (i == nul && find(t, NUL) is None),
                None => false,
            }
            &&& f.subrange(0, sp as int) == t
            &&& f.subrange(sp + 1 as int, nul as int) == d
            &&& f.subrange(nul + 1 as int, f.len() as int) == p
        }),
{
    let d = decimal(n);
    let f = t + seq![SPACE] + d + seq![NUL] + p;
    let sp = t.len() as int;
    let nul = sp + 1 + d.len();
    lemma_decimal(n);
    assert(f[sp] == SPACE);
    assert forall|j: int| 0 <= j < sp implies f[j] != SPACE by {
        assert(f[j] == t[j]);
    }
    lemma_find_at(f, SPACE, sp);
    assert(f[nul] == NUL);
    lemma_find(f, NUL);
    lemma_find(t, NUL);
    match find(t, NUL) {
        Some(i) => {
            assert(f[i as int] == t[i as int]);
            lemma_find_at(f, NUL, i as int);
        },
        None => {
            assert forall|j: int| 0 <= j < nul implies f[j] != NUL by {
                if j < sp {
                    assert(f[j] == t[j]);
                } else if j > sp {
                    assert(f[j] == d[j - sp - 1]);
                }
            }
            lemma_find_at(f, NUL, nul);
        },
    }
    assert(f.subrange(0, sp) =~= t);
    assert(f.subrange(sp + 1, nul) =~= d);
    assert(f.subrange(nul + 1, f.len() as int) =~= p);
}

/// Decoding the frame of an object gives back its kind and payload.
pub proof fn lemma_frame_round_trip(k: ObjectKind, p: Seq<u8>)
    ensures
        decode_frame_spec(frame(k, p)) == Ok::<(ObjectKind, Seq<u8>), GotError>((k, p)),
{
    let kn = kind_name(k);
    lemma_kind_name(k);
    lemma_decimal(p.len());
    lemma_find(kn, NUL);
    lemma_frame_tokens(kn, p.len(), p);
    assert(frame(k, p) =~= kn + seq![SPACE] + decimal(p.len()) + seq![NUL] + p);
}

/// A frame whose declared length differs from its payload's length is
/// refused as malformed, whatever its type token.
pub proof fn lemma_length_mismatch_rejected(t: Seq<u8>, n: nat, p: Seq<u8>)
    requires
        forall|i: int| 0 <= i < t.len() ==> t[i] != SPACE,
        n != p.len(),
    ensures
        decode_frame_spec(t + seq![SPACE] + decimal(n) + seq![NUL] + p) == Err::<(ObjectKind, Seq<u8>), GotError>(GotError::Malformed),
{
    lemma_decimal(n);
    lemma_frame_tokens(t, n, p);
}

/// A well-formed frame whose type token names no kind is refused with
/// `InvalidType`.
pub proof fn lemma_unknown_type_rejected(t: Seq<u8>, p: Seq<u8>)
    requires
        forall|i: int| 0 <= i < t.len() ==> t[i] != SPACE && t[i] != NUL,
        kind_of_name(t) is None,
    ensures
        decode_frame_spec(t + seq![SPACE] + decimal(p.len()) + seq![NUL] + p) == Err::<(ObjectKind, Seq<u8>), GotError>(GotError::InvalidType),
{
    lemma_decimal(p.len());
    lemma_find(t, NUL);
    lemma_frame_tokens(t, p.len(), p);
}

/// A frame whose first NUL comes before its first space is malformed.
pub proof fn lemma_nul_before_space_rejected(f: Seq<u8>, i: int)
    requires
        0 <= i < f.len(),
        f[i] == NUL,
        forall|j: int| 0 <= j <= i ==> f[j] != SPACE,
    ensures
        decode_frame_spec(f) == Err::<(ObjectKind, Seq<u8>), GotError>(GotError::Malformed),
{
    lemma_find(f, SPACE);
    lemma_find(f, NUL);
}

} // verus!
