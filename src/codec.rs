//! The on-disk form of a patch package.
//!
//! A package is its version as four little-endian bytes, followed by its
//! entries back to back. An entry is its path, then a tag byte for the
//! operation (0 add, 1 remove, 2 modify), then the operation's fields. Byte
//! strings are an eight-byte little-endian length followed by the bytes; text
//! is the byte string of its UTF-8 encoding.

use vstd::bytes::*;
use vstd::prelude::*;
use vstd::slice::*;
use vstd::utf8::*;

use crate::package::{
    Delta, DeltaAlgorithm, DeltaCompression, DeltaModel, EntryModel, OperationModel, PackageModel,
    PatchEntry, PatchError, PatchOperation, PatchPackage, PATCH_PACKAGE_VERSION,
};

verus! {

pub open spec fn field_bytes(b: Seq<u8>) -> Seq<u8> {
    spec_u64_to_le_bytes(b.len() as u64) + b
}

pub open spec fn text_bytes(s: Seq<char>) -> Seq<u8> {
    field_bytes(encode_utf8(s))
}

pub open spec fn algorithm_tag(a: DeltaAlgorithm) -> u8 {
    match a {
        DeltaAlgorithm::Rsync020 => 0,
        DeltaAlgorithm::Bidiff1 => 1,
    }
}

pub open spec fn compression_tag(c: DeltaCompression) -> u8 {
    match c {
        DeltaCompression::Uncompressed => 0,
        DeltaCompression::Zstd => 1,
    }
}

pub open spec fn delta_bytes(d: DeltaModel) -> Seq<u8> {
    seq![algorithm_tag(d.algorithm), compression_tag(d.compression)] + text_bytes(d.before_hash)
        + text_bytes(d.after_hash) + field_bytes(d.payload)
}

pub open spec fn operation_bytes(op: OperationModel) -> Seq<u8> {
    match op {
        OperationModel::Add(data) => seq![0u8] + field_bytes(data),
        OperationModel::Remove => seq![1u8],
        OperationModel::Modify(d) => seq![2u8] + delta_bytes(d),
    }
}

pub open spec fn entry_bytes(e: EntryModel) -> Seq<u8> {
    text_bytes(e.rel_path) + operation_bytes(e.operation)
}

pub open spec fn entries_bytes(es: Seq<EntryModel>) -> Seq<u8>
    decreases es.len(),
{
    if es.len() == 0 {
        Seq::empty()
    } else {
        entries_bytes(es.drop_last()) + entry_bytes(es.last())
    }
}

/// The bytes that encode a package.
pub open spec fn package_bytes(p: PackageModel) -> Seq<u8> {
    spec_u32_to_le_bytes(p.version) + entries_bytes(p.entries)
}

/// The version that the first four bytes announce, if there are four.
pub open spec fn announced_version(b: Seq<u8>) -> Option<u32> {
    if b.len() >= 4 {
        Some(spec_u32_from_le_bytes(b.take(4)))
    } else {
        None
    }
}

/// Every byte string and text in a package has a length that fits the length
/// prefix.
pub open spec fn package_fits(p: PackageModel) -> bool {
    forall|i: int| 0 <= i < p.entries.len() ==> #[trigger] entry_fits(p.entries[i])
}

pub open spec fn entry_fits(e: EntryModel) -> bool {
    &&& encode_utf8(e.rel_path).len() <= u64::MAX
    &&& match e.operation {
        OperationModel::Add(data) => data.len() <= u64::MAX,
        OperationModel::Remove => true,
        OperationModel::Modify(d) => delta_fits(d),
    }
}

pub proof fn lemma_entries_bytes_append(a: Seq<EntryModel>, b: Seq<EntryModel>)
    ensures
        entries_bytes(a + b) == entries_bytes(a) + entries_bytes(b),
    decreases b.len(),
{
    if b.len() == 0 {
        assert(a + b =~= a);
        assert(entries_bytes(b) =~= Seq::<u8>::empty());
        assert(entries_bytes(a) + entries_bytes(b) =~= entries_bytes(a));
    } else {
        lemma_entries_bytes_append(a, b.drop_last());
        assert((a + b).drop_last() =~= a + b.drop_last());
        assert((a + b).last() == b.last());
        assert(entries_bytes(a + b) =~= entries_bytes(a) + entries_bytes(b));
    }
}

proof fn lemma_entry_bytes_nonempty(e: EntryModel)
    ensures
        entry_bytes(e).len() >= 9,
{
    lemma_auto_spec_u64_to_from_le_bytes();
}

// Encoding.
fn append_slice(out: &mut Vec<u8>, b: &[u8])
    ensures
        final(out)@ == old(out)@ + b@,
{
    let mut i: usize = 0;
    while i < b.len()
        invariant
            i <= b@.len(),
            out@ == old(out)@ + b@.take(i as int),
        decreases b@.len() - i,
    {
        out.push(b[i]);
        i = i + 1;
        assert(out@ =~= old(out)@ + b@.take(i as int));
    }
    assert(b@.take(b@.len() as int) =~= b@);
}

fn append_field(out: &mut Vec<u8>, b: &[u8])
    ensures
        final(out)@ == old(out)@ + field_bytes(b@),
{
    let len = u64_to_le_bytes(b.len() as u64);
    append_slice(out, len.as_slice());
    append_slice(out, b);
    assert(out@ =~= old(out)@ + field_bytes(b@));
}

fn append_text(out: &mut Vec<u8>, s: &String)
    ensures
        final(out)@ == old(out)@ + text_bytes(s@),
{
    append_field(out, s.as_str().as_bytes());
}

fn append_entry(out: &mut Vec<u8>, e: &PatchEntry)
    ensures
        final(out)@ == old(out)@ + entry_bytes(e@),
{
    append_text(out, &e.rel_path);
    match &e.operation {
        PatchOperation::Add(data) => {
            out.push(0u8);
            append_field(out, data.as_slice());
        },
        PatchOperation::Remove => {
            out.push(1u8);
        },
        PatchOperation::Modify(d) => {
            out.push(2u8);
            let a: u8 = match d.diff_algorithm {
                DeltaAlgorithm::Rsync020 => 0,
                DeltaAlgorithm::Bidiff1 => 1,
            };
            let c: u8 = match d.compress_algorithm {
                DeltaCompression::Uncompressed => 0,
                DeltaCompression::Zstd => 1,
            };
            out.push(a);
            out.push(c);
            append_text(out, &d.before_hash);
            append_text(out, &d.after_hash);
            append_field(out, d.patch.as_slice());
        },
    }
    assert(out@ =~= old(out)@ + entry_bytes(e@));
}

/// Encodes a package; the same package always gives the same bytes.
pub fn encode_package(p: &PatchPackage) -> (r: Vec<u8>)
    ensures
        r@ == package_bytes(p@),
{
    let mut out = u32_to_le_bytes(p.version);
    let ghost models = p@.entries;
    let mut i: usize = 0;
    while i < p.entries.len()
        invariant
            i <= p.entries@.len(),
            models == p@.entries,
            out@ == spec_u32_to_le_bytes(p.version) + entries_bytes(models.take(i as int)),
        decreases p.entries@.len() - i,
    {
        append_entry(&mut out, &p.entries[i]);
        proof {
            assert(models.take(i + 1).drop_last() =~= models.take(i as int));
        }
        i = i + 1;
    }
    assert(models.take(i as int) =~= models);
    out
}

// Decoding.
/// Relies on String::from_utf8: it succeeds exactly on valid UTF-8, and then
/// holds the characters that the bytes encode.
#[verifier::external_body]
fn string_from_utf8(v: Vec<u8>) -> (r: Option<String>)
    ensures
        r is Some <==> valid_utf8(v@),
        r matches Some(s) ==> s@ == decode_utf8(v@),
{
    String::from_utf8(v).ok()
}

fn read_u64(b: &[u8], pos: usize) -> (n: u64)
    requires
        pos + 8 <= b@.len(),
    ensures
        b@.subrange(pos as int, pos + 8) == spec_u64_to_le_bytes(n),
{
    let len = b.len();
    assert(pos + 8 <= len);
    let n = u64_from_le_bytes(slice_subrange(b, pos, pos + 8));
    proof {
        lemma_auto_spec_u64_to_from_le_bytes();
    }
    n
}

fn parse_field(b: &[u8], pos: usize) -> (r: Option<(Vec<u8>, usize)>)
    ensures
        r matches Some((d, end)) ==> pos <= end <= b@.len() && b@.subrange(pos as int, end as int)
            == field_bytes(d@),
        forall|m: Seq<u8>|
            #![trigger field_bytes(m)]
            m.len() <= u64::MAX && pos + field_bytes(m).len() <= b@.len() && b@.subrange(
                pos as int,
                pos + field_bytes(m).len(),
            ) == field_bytes(m) ==> (r matches Some((d, end)) && d@ == m && end == pos
                + field_bytes(m).len()),
{
    proof {
        lemma_auto_spec_u64_to_from_le_bytes();
    }
    if b.len() < 8 || pos > b.len() - 8 {
        assert forall|m: Seq<u8>|
                #![trigger field_bytes(m)]
                m.len() <= u64::MAX && pos + field_bytes(m).len() <= b@.len() implies false by {
            assert(spec_u64_to_le_bytes(m.len() as u64).len() == 8);
        }
        return None;
    }
    let n = read_u64(b, pos);
    let start = pos + 8;
    if n > (b.len() - start) as u64 {
        assert forall|m: Seq<u8>|
            #![trigger field_bytes(m)]
            m.len() <= u64::MAX && pos + field_bytes(m).len() <= b@.len() && b@.subrange(
                pos as int,
                pos + field_bytes(m).len(),
            ) == field_bytes(m) implies false by {
            assert(b@.subrange(pos as int, pos + 8) =~= field_bytes(m).take(8));
            assert(field_bytes(m).take(8) =~= spec_u64_to_le_bytes(m.len() as u64));
        }
        return None;
    }
    let end = start + n as usize;
    let d = slice_to_vec(slice_subrange(b, start, end));
    assert(b@.subrange(pos as int, end as int) =~= b@.subrange(pos as int, pos + 8) + d@);
    assert forall|m: Seq<u8>|
        #![trigger field_bytes(m)]
        m.len() <= u64::MAX && pos + field_bytes(m).len() <= b@.len() && b@.subrange(
            pos as int,
            pos + field_bytes(m).len(),
        ) == field_bytes(m) implies d@ == m && end == pos + field_bytes(m).len() by {
        assert(b@.subrange(pos as int, pos + 8) =~= field_bytes(m).take(8));
        assert(field_bytes(m).take(8) =~= spec_u64_to_le_bytes(m.len() as u64));
        assert(n == m.len());
        assert(d@ =~= field_bytes(m).skip(8));
        assert(field_bytes(m).skip(8) =~= m);
    }
    Some((d, end))
}

fn parse_text(b: &[u8], pos: usize) -> (r: Option<(String, usize)>)
    ensures
        r matches Some((s, end)) ==> pos <= end <= b@.len() && b@.subrange(pos as int, end as int)
            == text_bytes(s@),
        forall|m: Seq<char>|
            #![trigger text_bytes(m)]
            encode_utf8(m).len() <= u64::MAX && pos + text_bytes(m).len() <= b@.len()
                && b@.subrange(pos as int, pos + text_bytes(m).len()) == text_bytes(m) ==> (r matches Some(
                (s, end),
            ) && s@ == m && end == pos + text_bytes(m).len()),
{
    let (d, end) = match parse_field(b, pos) {
        Some(x) => x,
        None => {
            assert forall|m: Seq<char>|
                #![trigger text_bytes(m)]
                encode_utf8(m).len() <= u64::MAX && pos + text_bytes(m).len() <= b@.len()
                    && b@.subrange(pos as int, pos + text_bytes(m).len()) == text_bytes(
                    m,
                ) implies false by {
                assert(text_bytes(m) == field_bytes(encode_utf8(m)));
            }
            return None;
        },
    };
    proof {
        broadcast use {encode_utf8_valid_utf8, encode_utf8_decode_utf8, decode_utf8_encode_utf8};

    }
    match string_from_utf8(d) {
        Some(s) => {
            assert forall|m: Seq<char>|
                #![trigger text_bytes(m)]
                encode_utf8(m).len() <= u64::MAX && pos + text_bytes(m).len() <= b@.len()
                    && b@.subrange(pos as int, pos + text_bytes(m).len()) == text_bytes(
                    m,
                ) implies s@ == m && end == pos + text_bytes(m).len() by {
                assert(text_bytes(m) == field_bytes(encode_utf8(m)));
            }
            Some((s, end))
        },
        None => {
            assert forall|m: Seq<char>|
                #![trigger text_bytes(m)]
                encode_utf8(m).len() <= u64::MAX && pos + text_bytes(m).len() <= b@.len()
                    && b@.subrange(pos as int, pos + text_bytes(m).len()) == text_bytes(
                    m,
                ) implies false by {
                assert(text_bytes(m) == field_bytes(encode_utf8(m)));
            }
            None
        },
    }
}

/// `x` stands in `b` at `pos`.
pub open spec fn encodes_at(b: Seq<u8>, pos: int, x: Seq<u8>) -> bool {
    0 <= pos && pos + x.len() <= b.len() && b.subrange(pos, pos + x.len()) == x
}

proof fn lemma_split(b: Seq<u8>, pos: int, x: Seq<u8>, y: Seq<u8>)
    requires
        encodes_at(b, pos, x + y),
    ensures
        encodes_at(b, pos, x),
        encodes_at(b, pos + x.len(), y),
{
    let whole = b.subrange(pos, pos + (x + y).len());
    assert(whole == x + y);
    assert(b.subrange(pos, pos + x.len()) =~= whole.subrange(0, x.len() as int));
    assert(whole.subrange(0, x.len() as int) =~= x);
    assert(b.subrange(pos + x.len(), pos + x.len() + y.len()) =~= whole.subrange(
        x.len() as int,
        (x + y).len() as int,
    ));
    assert(whole.subrange(x.len() as int, (x + y).len() as int) =~= y);
}

pub open spec fn delta_fits(d: DeltaModel) -> bool {
    &&& encode_utf8(d.before_hash).len() <= u64::MAX
    &&& encode_utf8(d.after_hash).len() <= u64::MAX
    &&& d.payload.len() <= u64::MAX
}

proof fn lemma_delta_parts(b: Seq<u8>, pos: int, m: DeltaModel)
    requires
        encodes_at(b, pos, delta_bytes(m)),
    ensures
        b[pos] == algorithm_tag(m.algorithm),
        b[pos + 1] == compression_tag(m.compression),
        encodes_at(b, pos + 2, text_bytes(m.before_hash)),
        encodes_at(b, pos + 2 + text_bytes(m.before_hash).len(), text_bytes(m.after_hash)),
        encodes_at(
            b,
            pos + 2 + text_bytes(m.before_hash).len() + text_bytes(m.after_hash).len(),
            field_bytes(m.payload),
        ),
{
    let h = seq![algorithm_tag(m.algorithm), compression_tag(m.compression)];
    let t1 = text_bytes(m.before_hash);
    let t2 = text_bytes(m.after_hash);
    lemma_split(b, pos, h + t1 + t2, field_bytes(m.payload));
    lemma_split(b, pos, h + t1, t2);
    lemma_split(b, pos, h, t1);
    assert(b.subrange(pos, pos + 2)[0] == b[pos]);
    assert(b.subrange(pos, pos + 2)[1] == b[pos + 1]);
}

proof fn lemma_join4(b: Seq<u8>, at0: int, at1: int, at2: int, at3: int, at4: int)
    requires
        0 <= at0 <= at1 <= at2 <= at3 <= at4 <= b.len(),
    ensures
        b.subrange(at0, at4) == b.subrange(at0, at1) + b.subrange(at1, at2) + b.subrange(at2, at3)
            + b.subrange(at3, at4),
{
    assert(b.subrange(at0, at4) =~= b.subrange(at0, at1) + b.subrange(at1, at2) + b.subrange(at2, at3)
        + b.subrange(at3, at4));
}

#[verifier::rlimit(40)]
fn parse_delta(b: &[u8], pos: usize) -> (r: Option<(Delta, usize)>)
    ensures
        r matches Some((d, end)) ==> pos <= end <= b@.len() && b@.subrange(pos as int, end as int)
            == delta_bytes(d@),
        forall|m: DeltaModel|
            #![trigger delta_bytes(m)]
            delta_fits(m) && encodes_at(b@, pos as int, delta_bytes(m)) ==> (r matches Some(
                (d, end),
            ) && d@ == m && end == pos + delta_bytes(m).len()),
{
    if b.len() < 2 || pos > b.len() - 2 {
        assert forall|m: DeltaModel|
            #![trigger delta_bytes(m)]
            delta_fits(m) && encodes_at(b@, pos as int, delta_bytes(m)) implies false by {
            assert(delta_bytes(m).len() >= 2);
        }
        return None;
    }
    let a = b[pos];
    let c = b[pos + 1];
    let algorithm = if a == 0 {
        DeltaAlgorithm::Rsync020
    } else if a == 1 {
        DeltaAlgorithm::Bidiff1
    } else {
        assert forall|m: DeltaModel|
            #![trigger delta_bytes(m)]
            delta_fits(m) && encodes_at(b@, pos as int, delta_bytes(m)) implies false by {
            lemma_delta_parts(b@, pos as int, m);
        }
        return None;
    };
    let compression = if c == 0 {
        DeltaCompression::Uncompressed
    } else if c == 1 {
        DeltaCompression::Zstd
    } else {
        assert forall|m: DeltaModel|
            #![trigger delta_bytes(m)]
            delta_fits(m) && encodes_at(b@, pos as int, delta_bytes(m)) implies false by {
            lemma_delta_parts(b@, pos as int, m);
        }
        return None;
    };
    let at0 = pos + 2;
    let ghost head = seq![algorithm_tag(algorithm), compression_tag(compression)];
    assert(b@.subrange(pos as int, at0 as int) =~= head) by {
        assert(b@.subrange(pos as int, at0 as int)[0] == b@[pos as int]);
        assert(b@.subrange(pos as int, at0 as int)[1] == b@[pos + 1]);
    }
    let r1 = parse_text(b, at0);
    if r1.is_none() {
        assert forall|m: DeltaModel|
            #![trigger delta_bytes(m)]
            delta_fits(m) && encodes_at(b@, pos as int, delta_bytes(m)) implies false by {
            lemma_delta_parts(b@, pos as int, m);
        }
        return None;
    }
    let (before_hash, at1) = r1.unwrap();
    let r2 = parse_text(b, at1);
    if r2.is_none() {
        assert forall|m: DeltaModel|
            #![trigger delta_bytes(m)]
            delta_fits(m) && encodes_at(b@, pos as int, delta_bytes(m)) implies false by {
            lemma_delta_parts(b@, pos as int, m);
        }
        return None;
    }
    let (after_hash, at2) = r2.unwrap();
    let r3 = parse_field(b, at2);
    if r3.is_none() {
        assert forall|m: DeltaModel|
            #![trigger delta_bytes(m)]
            delta_fits(m) && encodes_at(b@, pos as int, delta_bytes(m)) implies false by {
            lemma_delta_parts(b@, pos as int, m);
        }
        return None;
    }
    let (patch, end) = r3.unwrap();
    let d = Delta {
        diff_algorithm: algorithm,
        compress_algorithm: compression,
        before_hash,
        after_hash,
        patch,
    };
    proof {
        lemma_join4(b@, pos as int, at0 as int, at1 as int, at2 as int, end as int);
        assert(delta_bytes(d@) == head + text_bytes(d@.before_hash) + text_bytes(d@.after_hash)
            + field_bytes(d@.payload));
    }
    assert forall|m: DeltaModel|
        #![trigger delta_bytes(m)]
        delta_fits(m) && encodes_at(b@, pos as int, delta_bytes(m)) implies d@ == m && end == pos
        + delta_bytes(m).len() by {
        lemma_delta_parts(b@, pos as int, m);
    }
    Some((d, end))
}

proof fn lemma_entry_parts(b: Seq<u8>, pos: int, m: EntryModel)
    requires
        encodes_at(b, pos, entry_bytes(m)),
    ensures
        encodes_at(b, pos, text_bytes(m.rel_path)),
        pos + text_bytes(m.rel_path).len() < b.len(),
        b[pos + text_bytes(m.rel_path).len()] == operation_bytes(m.operation)[0],
        m.operation matches OperationModel::Add(data) ==> encodes_at(
            b,
            pos + text_bytes(m.rel_path).len() + 1,
            field_bytes(data),
        ),
        m.operation matches OperationModel::Modify(d) ==> encodes_at(
            b,
            pos + text_bytes(m.rel_path).len() + 1,
            delta_bytes(d),
        ),
{
    let t = text_bytes(m.rel_path);
    let o = operation_bytes(m.operation);
    lemma_split(b, pos, t, o);
    assert(b.subrange(pos + t.len(), pos + t.len() + o.len())[0] == b[pos + t.len()]);
    match m.operation {
        OperationModel::Add(data) => {
            lemma_split(b, pos + t.len(), seq![0u8], field_bytes(data));
        },
        OperationModel::Remove => {},
        OperationModel::Modify(d) => {
            lemma_split(b, pos + t.len(), seq![2u8], delta_bytes(d));
        },
    }
}

fn parse_entry(b: &[u8], pos: usize) -> (r: Option<(PatchEntry, usize)>)
    ensures
        r matches Some((e, end)) ==> pos <= end <= b@.len() && b@.subrange(pos as int, end as int)
            == entry_bytes(e@),
        forall|m: EntryModel|
            #![trigger entry_bytes(m)]
            entry_fits(m) && encodes_at(b@, pos as int, entry_bytes(m)) ==> (r matches Some(
                (e, end),
            ) && e@ == m && end == pos + entry_bytes(m).len()),
{
    let r0 = parse_text(b, pos);
    if r0.is_none() || r0.as_ref().unwrap().1 >= b.len() {
        assert forall|m: EntryModel|
            #![trigger entry_bytes(m)]
            entry_fits(m) && encodes_at(b@, pos as int, entry_bytes(m)) implies false by {
            lemma_entry_parts(b@, pos as int, m);
        }
        return None;
    }
    let (rel_path, at0) = r0.unwrap();
    let tag = b[at0];
    let at1 = at0 + 1;
    if tag == 0 {
        let r1 = parse_field(b, at1);
        if r1.is_none() {
            assert forall|m: EntryModel|
                #![trigger entry_bytes(m)]
                entry_fits(m) && encodes_at(b@, pos as int, entry_bytes(m)) implies false by {
                lemma_entry_parts(b@, pos as int, m);
            }
            return None;
        }
        let (data, end) = r1.unwrap();
        let e = PatchEntry { operation: PatchOperation::Add(data), rel_path };
        proof {
            lemma_join4(b@, pos as int, at0 as int, at1 as int, at1 as int, end as int);
            assert(b@.subrange(at0 as int, at1 as int) =~= seq![0u8]);
            assert(b@.subrange(at1 as int, at1 as int) =~= Seq::<u8>::empty());
            assert(b@.subrange(pos as int, end as int) =~= entry_bytes(e@));
        }
        assert forall|m: EntryModel|
            #![trigger entry_bytes(m)]
            entry_fits(m) && encodes_at(b@, pos as int, entry_bytes(m)) implies e@ == m && end == pos
            + entry_bytes(m).len() by {
            lemma_entry_parts(b@, pos as int, m);
        }
        Some((e, end))
    } else if tag == 1 {
        let e = PatchEntry { operation: PatchOperation::Remove, rel_path };
        proof {
            lemma_join4(b@, pos as int, at0 as int, at1 as int, at1 as int, at1 as int);
            assert(b@.subrange(at0 as int, at1 as int) =~= seq![1u8]);
            assert(b@.subrange(at1 as int, at1 as int) =~= Seq::<u8>::empty());
            assert(b@.subrange(pos as int, at1 as int) =~= entry_bytes(e@));
        }
        assert forall|m: EntryModel|
            #![trigger entry_bytes(m)]
            entry_fits(m) && encodes_at(b@, pos as int, entry_bytes(m)) implies e@ == m && at1 == pos
            + entry_bytes(m).len() by {
            lemma_entry_parts(b@, pos as int, m);
        }
        Some((e, at1))
    } else if tag == 2 {
        let r1 = parse_delta(b, at1);
        if r1.is_none() {
            assert forall|m: EntryModel|
                #![trigger entry_bytes(m)]
                entry_fits(m) && encodes_at(b@, pos as int, entry_bytes(m)) implies false by {
                lemma_entry_parts(b@, pos as int, m);
            }
            return None;
        }
        let (d, end) = r1.unwrap();
        let e = PatchEntry { operation: PatchOperation::Modify(d), rel_path };
        proof {
            lemma_join4(b@, pos as int, at0 as int, at1 as int, at1 as int, end as int);
            assert(b@.subrange(at0 as int, at1 as int) =~= seq![2u8]);
            assert(b@.subrange(at1 as int, at1 as int) =~= Seq::<u8>::empty());
            assert(b@.subrange(pos as int, end as int) =~= entry_bytes(e@));
        }
        assert forall|m: EntryModel|
            #![trigger entry_bytes(m)]
            entry_fits(m) && encodes_at(b@, pos as int, entry_bytes(m)) implies e@ == m && end == pos
            + entry_bytes(m).len() by {
            lemma_entry_parts(b@, pos as int, m);
        }
        Some((e, end))
    } else {
        assert forall|m: EntryModel|
            #![trigger entry_bytes(m)]
            entry_fits(m) && encodes_at(b@, pos as int, entry_bytes(m)) implies false by {
            lemma_entry_parts(b@, pos as int, m);
        }
        None
    }
}

pub open spec fn entry_models(es: Seq<PatchEntry>) -> Seq<EntryModel> {
    es.map_values(|e: PatchEntry| e@)
}

proof fn lemma_header(b: Seq<u8>, m: PackageModel)
    requires
        package_bytes(m) == b,
    ensures
        b.len() >= 4,
        announced_version(b) == Some(m.version),
        b.subrange(0, 4) == spec_u32_to_le_bytes(m.version),
        b.subrange(4, b.len() as int) == entries_bytes(m.entries),
{
    lemma_auto_spec_u32_to_from_le_bytes();
    assert(b.subrange(0, 4) =~= spec_u32_to_le_bytes(m.version));
    assert(b.take(4) =~= spec_u32_to_le_bytes(m.version));
    assert(b.subrange(4, b.len() as int) =~= entries_bytes(m.entries));
}

proof fn lemma_step(b: Seq<u8>, m: PackageModel, k: int)
    requires
        package_bytes(m) == b,
        0 <= k < m.entries.len(),
    ensures
        encodes_at(b, 4 + entries_bytes(m.entries.take(k)).len() as int, entry_bytes(m.entries[k])),
        entries_bytes(m.entries.take(k + 1)) == entries_bytes(m.entries.take(k)) + entry_bytes(
            m.entries[k],
        ),
{
    let es = m.entries;
    assert(es.take(k + 1).drop_last() =~= es.take(k));
    assert(es =~= es.take(k + 1) + es.skip(k + 1));
    lemma_entries_bytes_append(es.take(k + 1), es.skip(k + 1));
    let hdr = spec_u32_to_le_bytes(m.version);
    lemma_auto_spec_u32_to_from_le_bytes();
    assert(b =~= hdr + entries_bytes(es.take(k)) + entry_bytes(es[k]) + entries_bytes(
        es.skip(k + 1),
    ));
    assert(b.subrange(0, b.len() as int) =~= b);
    lemma_split(b, 0, hdr + entries_bytes(es.take(k)) + entry_bytes(es[k]), entries_bytes(es.skip(k + 1)));
    lemma_split(b, 0, hdr + entries_bytes(es.take(k)), entry_bytes(es[k]));
}

/// The version that a package's header announces, read without decoding
/// its entries.
pub fn peek_version(b: &[u8]) -> (r: Option<u32>)
    ensures
        r == announced_version(b@),
{
    if b.len() < 4 {
        return None;
    }
    let v = u32_from_le_bytes(slice_subrange(b, 0, 4));
    assert(b@.subrange(0, 4) =~= b@.take(4));
    Some(v)
}

/// Decodes a package of the supported version.
///
/// The version is checked first: a package that announces any other version
/// is refused before its entries are looked at. Otherwise the call succeeds
/// exactly on the bytes that encode some package.
pub fn decode_package(b: &[u8]) -> (r: Result<PatchPackage, PatchError>)
    ensures
        announced_version(b@) is None ==> r matches Err(PatchError::CorruptPackage),
        announced_version(b@) is Some && announced_version(b@)->Some_0 != PATCH_PACKAGE_VERSION
            ==> (r matches Err(PatchError::UnsupportedVersion(u)) && u == announced_version(
            b@,
        )->Some_0),
        r matches Ok(p) ==> p.version == PATCH_PACKAGE_VERSION && package_bytes(p@) == b@,
        forall|m: PackageModel|
            #![trigger package_bytes(m)]
            package_bytes(m) == b@ && package_fits(m) && m.version == PATCH_PACKAGE_VERSION ==> (r matches Ok(p) && p@ == m),
        r matches Err(e) ==> (e is CorruptPackage || e is UnsupportedVersion),
{
    let v = match peek_version(b) {
        Some(v) => v,
        None => {
            assert forall|m: PackageModel|
                #![trigger package_bytes(m)]
                package_bytes(m) == b@ implies false by {
                lemma_header(b@, m);
            }
            return Err(PatchError::CorruptPackage);
        },
    };
    if v != PATCH_PACKAGE_VERSION {
        assert forall|m: PackageModel|
            #![trigger package_bytes(m)]
            package_bytes(m) == b@ && m.version == PATCH_PACKAGE_VERSION implies false by {
            lemma_header(b@, m);
        }
        return Err(PatchError::UnsupportedVersion(v));
    }
    let mut entries: Vec<PatchEntry> = Vec::new();
    let mut pos: usize = 4;
    assert(b@.subrange(4, 4) =~= entries_bytes(entry_models(entries@)));
    while pos < b.len()
        invariant
            4 <= pos <= b@.len(),
            v == PATCH_PACKAGE_VERSION,
            announced_version(b@) == Some(v),
            b@.subrange(4, pos as int) == entries_bytes(entry_models(entries@)),
            forall|m: PackageModel|
                #![trigger package_bytes(m)]
                package_bytes(m) == b@ && package_fits(m) && m.version == PATCH_PACKAGE_VERSION ==> {
                    &&& entries@.len() <= m.entries.len()
                    &&& entry_models(entries@) == m.entries.take(entries@.len() as int)
                    &&& pos == 4 + entries_bytes(m.entries.take(entries@.len() as int)).len()
                },
        decreases b@.len() - pos,
    {
        let k = entries.len();
        let ghost old_models = entry_models(entries@);
        assert forall|m: PackageModel|
            #![trigger package_bytes(m)]
            package_bytes(m) == b@ && package_fits(m) && m.version == PATCH_PACKAGE_VERSION implies k
            < m.entries.len() by {
            if k == m.entries.len() {
                assert(m.entries.take(k as int) =~= m.entries);
                lemma_header(b@, m);
            }
        }
        match parse_entry(b, pos) {
            None => {
                assert forall|m: PackageModel|
                    #![trigger package_bytes(m)]
                    package_bytes(m) == b@ && package_fits(m) && m.version == PATCH_PACKAGE_VERSION implies false by {
                    lemma_step(b@, m, k as int);
                    assert(entry_fits(m.entries[k as int]));
                }
                return Err(PatchError::CorruptPackage);
            },
            Some((e, end)) => {
                proof {
                    lemma_entry_bytes_nonempty(e@);
                    assert forall|m: PackageModel|
                        #![trigger package_bytes(m)]
                        package_bytes(m) == b@ && package_fits(m) && m.version == PATCH_PACKAGE_VERSION implies {
                            &&& e@ == m.entries[k as int]
                            &&& end == 4 + entries_bytes(m.entries.take(k + 1)).len()
                            &&& old_models.push(e@) == m.entries.take(k + 1)
                        } by {
                        lemma_step(b@, m, k as int);
                        assert(entry_fits(m.entries[k as int]));
                        assert(m.entries.take(k as int).push(m.entries[k as int]) =~= m.entries.take(k + 1));
                    }
                    lemma_join4(b@, 4, pos as int, pos as int, pos as int, end as int);
                    assert(b@.subrange(pos as int, pos as int) =~= Seq::<u8>::empty());
                    assert(b@.subrange(4, end as int) =~= entries_bytes(old_models.push(e@))) by {
                        assert(old_models.push(e@).drop_last() =~= old_models);
                    }
                }
                entries.push(e);
                assert(entry_models(entries@) =~= old_models.push(entries@.last()@));
                pos = end;
            },
        }
    }
    let p = PatchPackage { version: v, entries };
    proof {
        lemma_auto_spec_u32_to_from_le_bytes();
        assert(b@.subrange(0, 4) =~= b@.take(4));
        assert(b@ =~= b@.subrange(0, 4) + b@.subrange(4, b@.len() as int));
        assert(p@.entries =~= entry_models(p.entries@));
        assert forall|m: PackageModel|
            #![trigger package_bytes(m)]
            package_bytes(m) == b@ && package_fits(m) && m.version == PATCH_PACKAGE_VERSION implies p@ == m by {
            let k = p.entries@.len() as int;
            if k < m.entries.len() {
                lemma_step(b@, m, k);
            }
            assert(m.entries.take(k) =~= m.entries);
        }
    }
    Ok(p)
}

} // verus!
