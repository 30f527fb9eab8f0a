//! The key/value-list-with-message text format of commits and tags:
//! header lines `key value\n`, continuation lines that begin with a space,
//! then a blank line and the free-text message.
use vstd::prelude::*;
use crate::codec::{copy_range, find, find_from, lemma_find, NEWLINE, SPACE};

verus! {

/// One entry: a key and its value. The message is the entry whose key is empty.
pub type Entry = (Seq<u8>, Seq<u8>);

/// Why a text is not in the format.
#[derive(Clone, Copy, Debug, PartialEq, Eq, Structural)]
pub enum KvlmError {
    /// The text ends before the blank line that opens the message.
    Truncated,
    /// A continuation line with no header before it to extend.
    DanglingContinuation,
}

/// The entries of `kvv`, as sequences of bytes.
pub open spec fn entries_view(kvv: Seq<(Vec<u8>, Vec<u8>)>) -> Seq<Entry> {
    kvv.map_values(|e: (Vec<u8>, Vec<u8>)| (e.0@, e.1@))
}

/// Parses the rest `r` of a text, `acc` holding the entries read before it.
///
/// A line with no space is the blank separator: what follows it is the
/// message. A line that begins with a space continues the previous value,
/// joined to it by a newline. Any other line is `key value`.
pub open spec fn parse_from(r: Seq<u8>, acc: Seq<Entry>) -> Result<Seq<Entry>, KvlmError>
    decreases r.len()
    via parse_from_decreases
{
    match find(r, NEWLINE) {
        None => Err(KvlmError::Truncated),
        Some(nl) => {
            let line = r.subrange(0, nl as int);
            let rest = r.subrange(nl + 1 as int, r.len() as int);
            match find(line, SPACE) {
                None => Ok(acc.push((Seq::empty(), rest))),
                Some(sp) => {
                    if sp == 0 {
                        if acc.len() == 0 {
                            Err(KvlmError::DanglingContinuation)
                        } else {
                            let last = acc.last();
                            let extended = last.1 + seq![NEWLINE] + line.subrange(1, nl as int);
                            parse_from(rest, acc.update(acc.len() - 1, (last.0, extended)))
                        }
                    } else {
                        let key = line.subrange(0, sp as int);
                        let value = line.subrange(sp + 1 as int, nl as int);
                        parse_from(rest, acc.push((key, value)))
                    }
                },
            }
        },
    }
}

#[via_fn]
proof fn parse_from_decreases(r: Seq<u8>, acc: Seq<Entry>) {
    lemma_find(r, NEWLINE);
}

#[via_fn]
proof fn blank_separated_decreases(r: Seq<u8>) {
    lemma_find(r, NEWLINE);
}

/// The entries of a text, in document order.
pub open spec fn parse(x: Seq<u8>) -> Result<Seq<Entry>, KvlmError> {
    parse_from(x, Seq::empty())
}

/// A value written as continuation lines: each newline is followed by a space.
pub open spec fn escape(v: Seq<u8>) -> Seq<u8>
    decreases v.len(),
{
    if v.len() == 0 {
        Seq::empty()
    } else if v.last() == NEWLINE {
        escape(v.drop_last()) + seq![NEWLINE, SPACE]
    } else {
        escape(v.drop_last()).push(v.last())
    }
}

/// The text of one entry.
pub open spec fn entry_text(e: Entry) -> Seq<u8> {
    if e.0.len() == 0 {
        seq![NEWLINE] + e.1
    } else {
        e.0 + seq![SPACE] + escape(e.1) + seq![NEWLINE]
    }
}

/// The text of a list of entries.
pub open spec fn serialize(es: Seq<Entry>) -> Seq<u8>
    decreases es.len(),
{
    if es.len() == 0 {
        Seq::empty()
    } else {
        serialize(es.drop_last()) + entry_text(es.last())
    }
}

/// The text's header block ends with an empty line.
pub open spec fn blank_separated(r: Seq<u8>) -> bool
    decreases r.len()
    via blank_separated_decreases
{
    match find(r, NEWLINE) {
        None => false,
        Some(nl) => match find(r.subrange(0, nl as int), SPACE) {
            None => nl == 0,
            Some(_) => blank_separated(r.subrange(nl + 1 as int, r.len() as int)),
        },
    }
}

/// Parses a text into its entries, in document order, repeated keys kept.
pub fn kvlm_parser(content: &[u8]) -> (r: Result<Vec<(Vec<u8>, Vec<u8>)>, KvlmError>)
    ensures
        match parse(content@) {
            Ok(es) => r matches Ok(v) && entries_view(v@) == es,
            Err(e) => r == Err::<Vec<(Vec<u8>, Vec<u8>)>, KvlmError>(e),
        },
{
    let len = content.len();
    let mut acc: Vec<(Vec<u8>, Vec<u8>)> = Vec::new();
    let mut pos: usize = 0;
    assert(content@.subrange(0, len as int) =~= content@);
    assert(entries_view(acc@) =~= Seq::<Entry>::empty());
    loop
        invariant
            len == content@.len(),
            pos <= len,
            parse(content@) == parse_from(content@.subrange(pos as int, len as int), entries_view(acc@)),
        decreases len - pos,
    {
        let ghost r = content@.subrange(pos as int, len as int);
        let nl = match find_from(content, pos, NEWLINE) {
            Some(i) => i,
            None => return Err(KvlmError::Truncated),
        };
        let ghost line = r.subrange(0, nl - pos);
        let ghost rest = r.subrange(nl - pos + 1, r.len() as int);
        assert(line =~= content@.subrange(pos as int, nl as int));
        assert(rest =~= content@.subrange(nl + 1, len as int));
        let head = &content[0..nl];
        assert(head@.subrange(pos as int, nl as int) =~= line);
        let sp = find_from(head, pos, SPACE);
        match sp {
            None => {
                let ghost before = entries_view(acc@);
                let message = copy_range(content, nl + 1, len);
                acc.push((Vec::new(), message));
                assert(entries_view(acc@) =~= before.push((Seq::empty(), rest)));
                return Ok(acc);
            },
            Some(s) => {
                if s == pos {
                    if acc.len() == 0 {
                        return Err(KvlmError::DanglingContinuation);
                    }
                    let ghost before = entries_view(acc@);
                    let ghost old_acc = acc@;
                    let (key, mut value) = acc.pop().unwrap();
                    assert(acc@ == old_acc.drop_last());
                    assert(key@ == before.last().0 && value@ == before.last().1);
                    value.push(NEWLINE);
                    let mut more = copy_range(content, pos + 1, nl);
                    assert(more@ =~= line.subrange(1, nl - pos));
                    value.append(&mut more);
                    let ghost kv = (key@, value@);
                    acc.push((key, value));
                    assert(acc@ == old_acc.drop_last().push(acc@.last()));
                    assert(kv == (before.last().0, before.last().1 + seq![NEWLINE] + line.subrange(1, nl - pos)));
                    assert(entries_view(acc@) =~= before.update(
                        before.len() - 1,
                        (before.last().0, before.last().1 + seq![NEWLINE] + line.subrange(1, nl - pos)),
                    ));
                } else {
                    let ghost before = entries_view(acc@);
                    let key = copy_range(content, pos, s);
                    let value = copy_range(content, s + 1, nl);
                    assert(key@ =~= line.subrange(0, s - pos));
                    assert(value@ =~= line.subrange(s - pos + 1, nl - pos));
                    acc.push((key, value));
                    assert(entries_view(acc@) =~= before.push(
                        (line.subrange(0, s - pos), line.subrange(s - pos + 1, nl - pos)),
                    ));
                }
            },
        }
        pos = nl + 1;
    }
}

/// Appends the bytes of `s` to `out`.
fn extend_bytes(out: &mut Vec<u8>, s: &[u8])
    ensures
        final(out)@ == old(out)@ + s@,
{
    let mut i: usize = 0;
    while i < s.len()
        invariant
            i <= s@.len(),
            out@ == old(out)@ + s@.subrange(0, i as int),
        decreases s@.len() - i,
    {
        out.push(s[i]);
        assert(s@.subrange(0, i + 1) =~= s@.subrange(0, i as int).push(s@[i as int]));
        i = i + 1;
    }
    assert(s@.subrange(0, i as int) =~= s@);
}

/// Appends `v` to `out`, with a space after each newline.
fn extend_escaped(out: &mut Vec<u8>, v: &[u8])
    ensures
        final(out)@ == old(out)@ + escape(v@),
{
    let mut i: usize = 0;
    while i < v.len()
        invariant
            i <= v@.len(),
            out@ == old(out)@ + escape(v@.subrange(0, i as int)),
        decreases v@.len() - i,
    {
        let b = v[i];
        out.push(b);
        if b == NEWLINE {
            out.push(SPACE);
        }
        assert(v@.subrange(0, i + 1).drop_last() =~= v@.subrange(0, i as int));
        i = i + 1;
    }
    assert(v@.subrange(0, i as int) =~= v@);
}

/// Writes entries back as text: `key value\n` for each header, with each
/// newline of a value followed by a space, and a newline then the message for
/// the entry whose key is empty.
pub fn kvlm_serialize(kvv: &Vec<(Vec<u8>, Vec<u8>)>) -> (r: Vec<u8>)
    ensures
        r@ == serialize(entries_view(kvv@)),
{
    let mut out: Vec<u8> = Vec::new();
    let mut i: usize = 0;
    assert(entries_view(kvv@.subrange(0, 0)) =~= Seq::<Entry>::empty());
    while i < kvv.len()
        invariant
            i <= kvv@.len(),
            out@ == serialize(entries_view(kvv@.subrange(0, i as int))),
        decreases kvv@.len() - i,
    {
        let key = &kvv[i].0;
        let value = &kvv[i].1;
        if key.len() == 0 {
            out.push(NEWLINE);
            extend_bytes(&mut out, value.as_slice());
        } else {
            extend_bytes(&mut out, key.as_slice());
            out.push(SPACE);
            extend_escaped(&mut out, value.as_slice());
            out.push(NEWLINE);
        }
        let ghost done = entries_view(kvv@.subrange(0, i + 1));
        assert(done.drop_last() =~= entries_view(kvv@.subrange(0, i as int)));
        assert(done.last() == (key@, value@));
        assert(out@ =~= serialize(done));
        i = i + 1;
    }
    assert(kvv@.subrange(0, i as int) =~= kvv@);
    out
}

/// Escaping distributes over concatenation.
proof fn lemma_escape_concat(a: Seq<u8>, b: Seq<u8>)
    ensures
        escape(a + b) == escape(a) + escape(b),
    decreases b.len(),
{
    if b.len() == 0 {
        assert(a + b =~= a);
        assert(escape(a) + escape(b) =~= escape(a));
    } else {
        lemma_escape_concat(a, b.drop_last());
        assert((a + b).drop_last() =~= a + b.drop_last());
        assert((a + b).last() == b.last());
        if b.last() == NEWLINE {
            assert(escape(a + b) =~= escape(a) + escape(b));
        } else {
            assert(escape(a + b) =~= escape(a) + escape(b));
        }
    }
}

/// Escaping leaves a value without newlines as it is.
proof fn lemma_escape_plain(c: Seq<u8>)
    requires
        forall|i: int| 0 <= i < c.len() ==> c[i] != NEWLINE,
    ensures
        escape(c) == c,
    decreases c.len(),
{
    if c.len() > 0 {
        lemma_escape_plain(c.drop_last());
        assert(c.drop_last().push(c.last()) =~= c);
    }
}

/// Parsing the rest of a text and writing the entries back yields the text
/// of the entries read before it, followed by that rest.
proof fn lemma_parse_from_serialize(r: Seq<u8>, acc: Seq<Entry>)
    requires
        forall|i: int| 0 <= i < acc.len() ==> (#[trigger] acc[i]).0.len() > 0,
        parse_from(r, acc) is Ok,
        blank_separated(r),
    ensures
        serialize(parse_from(r, acc)->Ok_0) == serialize(acc) + r,
    decreases r.len(),
{
    lemma_find(r, NEWLINE);
    let nl = find(r, NEWLINE)->Some_0 as int;
    let line = r.subrange(0, nl);
    let rest = r.subrange(nl + 1, r.len() as int);
    lemma_find(line, SPACE);
    assert(r =~= line + seq![NEWLINE] + rest);
    assert forall|i: int| 0 <= i < line.len() implies line[i] != NEWLINE by {
        assert(line[i] == r[i]);
    }
    match find(line, SPACE) {
        None => {
            assert(line.len() == 0);
            let e = acc.push((Seq::<u8>::empty(), rest));
            assert(e.drop_last() =~= acc);
            assert(r =~= seq![NEWLINE] + rest);
            assert(serialize(e) =~= serialize(acc) + r);
        },
        Some(sp) => {
            if sp == 0 {
                let last = acc.last();
                let c = line.subrange(1, nl);
                let acc2 = acc.update(acc.len() - 1, (last.0, last.1 + seq![NEWLINE] + c));
                assert forall|i: int| 0 <= i < acc2.len() implies (#[trigger] acc2[i]).0.len() > 0 by {
                    assert(acc[i].0.len() > 0);
                }
                lemma_parse_from_serialize(rest, acc2);
                lemma_escape_concat(last.1 + seq![NEWLINE], c);
                assert((last.1 + seq![NEWLINE]).drop_last() =~= last.1);
                lemma_escape_plain(c);
                assert(acc2.drop_last() =~= acc.drop_last());
                assert(acc.len() > 0 && acc[acc.len() - 1].0.len() > 0);
                assert(line =~= seq![SPACE] + c);
                assert(serialize(acc2) =~= serialize(acc) + line + seq![NEWLINE]);
            } else {
                let key = line.subrange(0, sp as int);
                let value = line.subrange(sp + 1 as int, nl);
                let acc2 = acc.push((key, value));
                assert forall|i: int| 0 <= i < acc2.len() implies (#[trigger] acc2[i]).0.len() > 0 by {
                    if i < acc.len() {
                        assert(acc[i].0.len() > 0);
                    }
                }
                lemma_parse_from_serialize(rest, acc2);
                lemma_escape_plain(value);
                assert(acc2.drop_last() =~= acc);
                assert(line =~= key + seq![SPACE] + value);
                assert(serialize(acc2) =~= serialize(acc) + line + seq![NEWLINE]);
            }
        },
    }
}

/// Writing back the entries parsed from a text gives the text back, when its
/// header block ends with an empty line.
pub proof fn lemma_kvlm_round_trip(x: Seq<u8>)
    requires
        parse(x) is Ok,
        blank_separated(x),
    ensures
        serialize(parse(x)->Ok_0) == x,
{
    lemma_parse_from_serialize(x, Seq::empty());
    assert(Seq::<u8>::empty() + x =~= x);
}

/// A header key: not empty, with no space and no newline.
pub open spec fn is_header_key(k: Seq<u8>) -> bool {
    k.len() > 0 && forall|i: int| 0 <= i < k.len() ==> k[i] != SPACE && k[i] != NEWLINE
}

/// Entries that the format can hold: headers with proper keys, then the
/// message as the one entry with an empty key, last.
pub open spec fn well_formed(es: Seq<Entry>) -> bool {
    &&& es.len() > 0
    &&& es.last().0.len() == 0
    &&& forall|i: int| 0 <= i < es.len() - 1 ==> is_header_key(#[trigger] es[i].0)
}

/// Escaping a value cut at its first newline.
proof fn lemma_escape_split(s0: Seq<u8>, w: Seq<u8>)
    requires
        forall|j: int| 0 <= j < s0.len() ==> s0[j] != NEWLINE,
    ensures
        escape(s0 + seq![NEWLINE] + w) == s0 + seq![NEWLINE, SPACE] + escape(w),
{
    lemma_escape_concat(s0 + seq![NEWLINE], w);
    lemma_escape_concat(s0, seq![NEWLINE]);
    lemma_escape_plain(s0);
    let nl = seq![NEWLINE];
    assert(nl.drop_last() =~= Seq::<u8>::empty());
    assert(escape(Seq::<u8>::empty()) == Seq::<u8>::empty());
    assert(escape(nl) =~= seq![NEWLINE, SPACE]);
    assert(s0 + seq![NEWLINE, SPACE] + escape(w) =~= escape(s0) + escape(nl) + escape(w));
}

/// One continuation line extends the last value.
proof fn lemma_parse_cont_line(c: Seq<u8>, rest: Seq<u8>, acc: Seq<Entry>, k: Seq<u8>, u: Seq<u8>)
    requires
        forall|j: int| 0 <= j < c.len() ==> c[j] != NEWLINE,
    ensures
        parse_from(seq![SPACE] + c + seq![NEWLINE] + rest, acc.push((k, u)))
            == parse_from(rest, acc.push((k, u + seq![NEWLINE] + c))),
{
    let text = seq![SPACE] + c + seq![NEWLINE] + rest;
    let acc1 = acc.push((k, u));
    let line = seq![SPACE] + c;
    assert(text =~= line + seq![NEWLINE] + rest);
    assert forall|j: int| 0 <= j < line.len() implies text[j] != NEWLINE by {
        if j > 0 {
            assert(text[j] == c[j - 1]);
        }
    }
    crate::codec::lemma_find_at(text, NEWLINE, line.len() as int);
    assert(text.subrange(0, line.len() as int) =~= line);
    assert(text.subrange(line.len() + 1 as int, text.len() as int) =~= rest);
    crate::codec::lemma_find_at(line, SPACE, 0);
    assert(line.subrange(1, line.len() as int) =~= c);
    assert(acc1.update(acc1.len() - 1, (k, u + seq![NEWLINE] + c)) =~= acc.push((k, u + seq![NEWLINE] + c)));
}

/// One header line adds an entry.
proof fn lemma_parse_header_line(k: Seq<u8>, s0: Seq<u8>, rest: Seq<u8>, acc: Seq<Entry>)
    requires
        is_header_key(k),
        forall|j: int| 0 <= j < s0.len() ==> s0[j] != NEWLINE,
    ensures
        parse_from(k + seq![SPACE] + s0 + seq![NEWLINE] + rest, acc) == parse_from(rest, acc.push((k, s0))),
{
    let line = k + seq![SPACE] + s0;
    let text = k + seq![SPACE] + s0 + seq![NEWLINE] + rest;
    assert(text =~= line + seq![NEWLINE] + rest);
    assert forall|j: int| 0 <= j < line.len() implies text[j] != NEWLINE by {
        if j < k.len() {
            assert(text[j] == k[j]);
        } else if j > k.len() {
            assert(text[j] == s0[j - k.len() - 1]);
        }
    }
    crate::codec::lemma_find_at(text, NEWLINE, line.len() as int);
    assert(text.subrange(0, line.len() as int) =~= line);
    assert(text.subrange(line.len() + 1 as int, text.len() as int) =~= rest);
    assert forall|j: int| 0 <= j < k.len() implies line[j] != SPACE by {
        assert(line[j] == k[j]);
    }
    crate::codec::lemma_find_at(line, SPACE, k.len() as int);
    assert(line.subrange(0, k.len() as int) =~= k);
    assert(line.subrange(k.len() + 1 as int, line.len() as int) =~= s0);
}

/// Continuation lines after a header extend its value, one line each.
proof fn lemma_parse_continuation(w: Seq<u8>, rest: Seq<u8>, acc: Seq<Entry>, k: Seq<u8>, u: Seq<u8>)
    ensures
        parse_from(seq![SPACE] + escape(w) + seq![NEWLINE] + rest, acc.push((k, u)))
            == parse_from(rest, acc.push((k, u + seq![NEWLINE] + w))),
    decreases w.len(),
{
    lemma_find(w, NEWLINE);
    match find(w, NEWLINE) {
        None => {
            lemma_escape_plain(w);
            lemma_parse_cont_line(w, rest, acc, k, u);
        },
        Some(i) => {
            let s1 = w.subrange(0, i as int);
            let w2 = w.subrange(i + 1 as int, w.len() as int);
            assert(w =~= s1 + seq![NEWLINE] + w2);
            assert forall|j: int| 0 <= j < s1.len() implies s1[j] != NEWLINE by {
                assert(s1[j] == w[j]);
            }
            lemma_escape_split(s1, w2);
            let rest2 = seq![SPACE] + escape(w2) + seq![NEWLINE] + rest;
            assert(seq![SPACE] + escape(w) + seq![NEWLINE] + rest =~= seq![SPACE] + s1 + seq![NEWLINE] + rest2);
            lemma_parse_cont_line(s1, rest2, acc, k, u);
            let u2 = u + seq![NEWLINE] + s1;
            lemma_parse_continuation(w2, rest, acc, k, u2);
            assert(u2 + seq![NEWLINE] + w2 =~= u + seq![NEWLINE] + w);
        },
    }
}

/// A header's text parses back to that header.
proof fn lemma_parse_header(k: Seq<u8>, v: Seq<u8>, rest: Seq<u8>, acc: Seq<Entry>)
    requires
        is_header_key(k),
    ensures
        parse_from(entry_text((k, v)) + rest, acc) == parse_from(rest, acc.push((k, v))),
{
    lemma_find(v, NEWLINE);
    match find(v, NEWLINE) {
        Some(i) => {
            let s0 = v.subrange(0, i as int);
            let w = v.subrange(i + 1 as int, v.len() as int);
            assert(v =~= s0 + seq![NEWLINE] + w);
            assert forall|j: int| 0 <= j < s0.len() implies s0[j] != NEWLINE by {
                assert(s0[j] == v[j]);
            }
            lemma_escape_split(s0, w);
            let tail = seq![SPACE] + escape(w) + seq![NEWLINE] + rest;
            assert(entry_text((k, v)) + rest =~= k + seq![SPACE] + s0 + seq![NEWLINE] + tail);
            lemma_parse_header_line(k, s0, tail, acc);
            lemma_parse_continuation(w, rest, acc, k, s0);
            assert(s0 + seq![NEWLINE] + w =~= v);
        },
        None => {
            lemma_escape_plain(v);
            assert(entry_text((k, v)) + rest =~= k + seq![SPACE] + v + seq![NEWLINE] + rest);
            lemma_parse_header_line(k, v, rest, acc);
        },
    }
}

/// The text of entries is that of the first, then that of the others.
proof fn lemma_serialize_first(es: Seq<Entry>)
    requires
        es.len() > 0,
    ensures
        serialize(es) == entry_text(es[0]) + serialize(es.drop_first()),
    decreases es.len(),
{
    if es.len() == 1 {
        assert(es.drop_last() =~= Seq::<Entry>::empty());
        assert(es.drop_first() =~= Seq::<Entry>::empty());
        assert(serialize(es) =~= entry_text(es[0]) + serialize(es.drop_first()));
    } else {
        lemma_serialize_first(es.drop_last());
        assert(es.drop_last().drop_first() =~= es.drop_first().drop_last());
        assert(es.drop_first().last() == es.last());
        assert(es.drop_last()[0] == es[0]);
        assert(serialize(es) =~= entry_text(es[0]) + serialize(es.drop_first()));
    }
}

proof fn lemma_parse_entries(es: Seq<Entry>, acc: Seq<Entry>)
    requires
        well_formed(es),
    ensures
        parse_from(serialize(es), acc) == Ok::<Seq<Entry>, KvlmError>(acc + es),
    decreases es.len(),
{
    lemma_serialize_first(es);
    if es.len() == 1 {
        let m = es[0].1;
        assert(es.drop_first() =~= Seq::<Entry>::empty());
        let text = serialize(es);
        assert(text =~= seq![NEWLINE] + m);
        crate::codec::lemma_find_at(text, NEWLINE, 0);
        assert(text.subrange(0, 0) =~= Seq::<u8>::empty());
        assert(text.subrange(1, text.len() as int) =~= m);
        assert(es[0].0 =~= Seq::<u8>::empty());
        assert(acc.push((Seq::<u8>::empty(), m)) =~= acc + es);
    } else {
        let rest = es.drop_first();
        assert(is_header_key(es[0].0));
        assert forall|i: int| 0 <= i < rest.len() - 1 implies is_header_key(#[trigger] rest[i].0) by {
            assert(rest[i] == es[i + 1]);
        }
        assert(rest.last() == es.last());
        lemma_parse_header(es[0].0, es[0].1, serialize(rest), acc);
        lemma_parse_entries(rest, acc.push(es[0]));
        assert(acc.push(es[0]) + rest =~= acc + es);
    }
}

/// Parsing the text of well-formed entries gives the entries back.
pub proof fn lemma_kvlm_parse_serialized(es: Seq<Entry>)
    requires
        well_formed(es),
    ensures
        parse(serialize(es)) == Ok::<Seq<Entry>, KvlmError>(es),
{
    lemma_parse_entries(es, Seq::empty());
    assert(Seq::<Entry>::empty() + es =~= es);
}

} // verus!
