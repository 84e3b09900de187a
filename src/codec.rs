//! The v1 on-disk layout: the two parents, then one record per file. A
//! record is a state byte, the mode, size and mtime as big-endian 32-bit
//! integers, the length of what follows, and the path, followed by a NUL
//! byte and the copy source when there is one.
//!
//! Only this v1 layout is encoded and decoded here. The v2 layout is
//! specified outside this crate, so there is no v2 encoder or decoder
//! (`new_v2`, `pack_v2`).
use vstd::prelude::*;

use crate::entry::DirstateEntry;
use crate::entry::DirstateParents;
use crate::entry::EntryState;

verus! {

/// Length of the two parents at the start of an image.
pub const PARENTS_SIZE: usize = 40;

/// Length of a record before its path.
pub const RECORD_HEADER_SIZE: usize = 17;

pub open spec fn state_byte(s: EntryState) -> u8 {
    match s {
        EntryState::Normal => 0x6e,
        EntryState::Added => 0x61,
        EntryState::Removed => 0x72,
        EntryState::Merged => 0x6d,
    }
}

pub open spec fn state_of_byte(b: u8) -> Option<EntryState> {
    if b == 0x6e {
        Some(EntryState::Normal)
    } else if b == 0x61 {
        Some(EntryState::Added)
    } else if b == 0x72 {
        Some(EntryState::Removed)
    } else if b == 0x6d {
        Some(EntryState::Merged)
    } else {
        None
    }
}

/// The byte that stands for `s` in a record.
pub fn encode_state(s: EntryState) -> (r: u8)
    ensures
        r == state_byte(s),
        state_of_byte(r) == Some(s),
{
    match s {
        EntryState::Normal => 0x6e,
        EntryState::Added => 0x61,
        EntryState::Removed => 0x72,
        EntryState::Merged => 0x6d,
    }
}

/// The state that `b` stands for.
pub fn decode_state(b: u8) -> (r: Option<EntryState>)
    ensures
        r == state_of_byte(b),
{
    if b == 0x6e {
        Some(EntryState::Normal)
    } else if b == 0x61 {
        Some(EntryState::Added)
    } else if b == 0x72 {
        Some(EntryState::Removed)
    } else if b == 0x6d {
        Some(EntryState::Merged)
    } else {
        None
    }
}

/// The four big-endian bytes of `x`.
pub open spec fn be32(x: i32) -> Seq<u8> {
    let u = x as u32;
    seq![(u >> 24u32) as u8, (u >> 16u32) as u8, (u >> 8u32) as u8, u as u8]
}

/// The big-endian integer in `s[at..at + 4]`.
pub open spec fn read_be32(s: Seq<u8>, at: int) -> i32 {
    (((s[at] as u32) << 24u32) | ((s[at + 1] as u32) << 16u32) | ((s[at + 2] as u32) << 8u32) | (
    s[at + 3] as u32)) as i32
}

/// Appends the four big-endian bytes of `x`.
pub fn push_be32(out: &mut Vec<u8>, x: i32)
    ensures
        final(out)@ == old(out)@ + be32(x),
{
    let u = x as u32;
    out.push((u >> 24u32) as u8);
    out.push((u >> 16u32) as u8);
    out.push((u >> 8u32) as u8);
    out.push(u as u8);
    proof {
        assert(final(out)@ =~= old(out)@ + be32(x));
    }
}

/// Reads the big-endian integer at `at`.
pub fn get_be32(s: &[u8], at: usize) -> (r: i32)
    requires
        at + 4 <= s@.len(),
    ensures
        r == read_be32(s@, at as int),
{
    (((s[at] as u32) << 24u32) | ((s[at + 1] as u32) << 16u32) | ((s[at + 2] as u32) << 8u32) | (
    s[at + 3] as u32)) as i32
}

/// What the two parents are written as.
pub open spec fn parents_bytes(p: DirstateParents) -> Seq<u8> {
    p.p1@ + p.p2@
}

/// One file as the v1 layout records it: path, entry, copy source.
pub type Record = (Seq<u8>, DirstateEntry, Option<Seq<u8>>);

/// Length of the path and copy source part of a record.
pub open spec fn name_len(r: Record) -> int {
    r.0.len() + match r.2 {
        Some(c) => 1 + c.len() as int,
        None => 0int,
    }
}

/// The bytes of one record.
pub open spec fn record_bytes(r: Record) -> Seq<u8> {
    seq![state_byte(r.1.state)] + be32(r.1.mode) + be32(r.1.size) + be32(r.1.mtime) + be32(
        name_len(r) as i32,
    ) + r.0 + match r.2 {
        Some(c) => seq![0u8] + c,
        None => Seq::empty(),
    }
}

/// The bytes of several records, one after the other.
pub open spec fn records_bytes(rs: Seq<Record>) -> Seq<u8>
    decreases rs.len(),
{
    if rs.len() == 0 {
        Seq::empty()
    } else {
        records_bytes(rs.subrange(0, rs.len() - 1)) + record_bytes(rs[rs.len() - 1])
    }
}

/// Index of the first NUL byte of `p`, or its length.
pub open spec fn first_nul(p: Seq<u8>) -> int
    decreases p.len(),
{
    if p.len() == 0 {
        0
    } else if p[0] == 0 {
        0
    } else {
        1 + first_nul(p.subrange(1, p.len() as int))
    }
}

pub proof fn lemma_first_nul(p: Seq<u8>)
    ensures
        0 <= first_nul(p) <= p.len(),
        first_nul(p) < p.len() ==> p[first_nul(p)] == 0,
        forall|k: int| 0 <= k < first_nul(p) ==> p[k] != 0,
    decreases p.len(),
{
    if p.len() > 0 && p[0] != 0 {
        let t = p.subrange(1, p.len() as int);
        lemma_first_nul(t);
        assert forall|k: int| 0 <= k < first_nul(p) implies p[k] != 0 by {
            if k > 0 {
                assert(p[k] == t[k - 1]);
            }
        }
    }
}

/// Position of the first NUL byte in `s[start..end]`, or `end`.
pub fn find_nul(s: &[u8], start: usize, end: usize) -> (r: usize)
    requires
        start <= end <= s@.len(),
    ensures
        r - start == first_nul(s@.subrange(start as int, end as int)),
        start <= r <= end,
{
    let ghost part = s@.subrange(start as int, end as int);
    proof {
        lemma_first_nul(part);
    }
    let mut i: usize = start;
    while i < end
        invariant
            start <= i <= end,
            end <= s@.len(),
            part == s@.subrange(start as int, end as int),
            0 <= first_nul(part) <= part.len(),
            first_nul(part) < part.len() ==> part[first_nul(part)] == 0,
            forall|k: int| 0 <= k < first_nul(part) ==> part[k] != 0,
            i - start <= first_nul(part),
        decreases end - i,
    {
        if s[i] == 0 {
            assert(part[i - start] == 0);
            return i;
        }
        assert(part[i - start] != 0);
        i = i + 1;
    }
    i
}

/// Whether a record header starts at `pos` and its record fits in `img`.
pub open spec fn header_ok(img: Seq<u8>, pos: int) -> bool {
    &&& pos + RECORD_HEADER_SIZE <= img.len()
    &&& state_of_byte(img[pos]) is Some
    &&& read_be32(img, pos + 13) >= 0
    &&& pos + RECORD_HEADER_SIZE + read_be32(img, pos + 13) <= img.len()
}

/// Where the record that starts at `pos` ends.
pub open spec fn record_end(img: Seq<u8>, pos: int) -> int {
    pos + RECORD_HEADER_SIZE + read_be32(img, pos + 13)
}

/// The record that starts at `pos`.
pub open spec fn record_at(img: Seq<u8>, pos: int) -> Record {
    let body = img.subrange(pos + RECORD_HEADER_SIZE, record_end(img, pos));
    let z = first_nul(body);
    (
        body.subrange(0, z),
        DirstateEntry {
            state: state_of_byte(img[pos])->0,
            mode: read_be32(img, pos + 1),
            size: read_be32(img, pos + 5),
            mtime: read_be32(img, pos + 9),
        },
        if z < body.len() {
            Some(body.subrange(z + 1, body.len() as int))
        } else {
            None
        },
    )
}

/// The records from `pos` to the end of `img`, if they are all well formed.
pub open spec fn parse_records(img: Seq<u8>, pos: int) -> Option<Seq<Record>>
    decreases img.len() - pos,
{
    if pos >= img.len() {
        Some(Seq::empty())
    } else if !header_ok(img, pos) {
        None
    } else {
        match parse_records(img, record_end(img, pos)) {
            Some(rest) => Some(seq![record_at(img, pos)] + rest),
            None => None,
        }
    }
}

/// No two records name the same path.
pub open spec fn distinct_paths(rs: Seq<Record>) -> bool {
    forall|i: int, j: int| 0 <= i < rs.len() && 0 <= j < rs.len() && i != j ==> (#[trigger] rs[i]).0 != (#[trigger] rs[j]).0
}

/// Whether `img` is a v1 image: empty, or the parents followed by well
/// formed records for distinct paths.
pub open spec fn valid_v1(img: Seq<u8>) -> bool {
    img.len() == 0 || (img.len() >= PARENTS_SIZE && parse_records(img, PARENTS_SIZE as int) is Some
        && distinct_paths(parse_records(img, PARENTS_SIZE as int)->0))
}

/// Whether `img` is a v1 image whose records the 32-bit counters can
/// count.
pub open spec fn decodable_v1(img: Seq<u8>) -> bool {
    valid_v1(img) && (img.len() > 0 ==> parse_records(img, PARENTS_SIZE as int)->0.len() <= u32::MAX)
}

/// The entry that the records give for `p`.
pub open spec fn record_entry(rs: Seq<Record>, p: Seq<u8>) -> Option<DirstateEntry>
    decreases rs.len(),
{
    if rs.len() == 0 {
        None
    } else if rs[rs.len() - 1].0 == p {
        Some(rs[rs.len() - 1].1)
    } else {
        record_entry(rs.subrange(0, rs.len() - 1), p)
    }
}

/// The copy source that the records give for `p`.
pub open spec fn record_copy(rs: Seq<Record>, p: Seq<u8>) -> Option<Seq<u8>>
    decreases rs.len(),
{
    if rs.len() == 0 {
        None
    } else if rs[rs.len() - 1].0 == p {
        rs[rs.len() - 1].2
    } else {
        record_copy(rs.subrange(0, rs.len() - 1), p)
    }
}

/// The parents at the start of `img`.
pub open spec fn parents_of(img: Seq<u8>) -> (Seq<u8>, Seq<u8>) {
    (img.subrange(0, 20), img.subrange(20, 40))
}

/// Errors of decoding and encoding.
#[derive(Clone, Copy, Debug, PartialEq, Eq, Structural)]
pub enum DirstateError {
    /// The image is truncated, holds an unknown state, or names a path twice.
    CorruptImage,
    /// The current time does not fit the width of the on-disk format.
    TimeOverflow,
    /// The image holds more records than the 32-bit counters can count.
    TooManyEntries,
}

/// Appends the record of `path` with `entry` and `copy_source`.
pub fn pack_entry(path: &[u8], entry: &DirstateEntry, copy_source: Option<&[u8]>, packed: &mut Vec<u8>)
    ensures
        final(packed)@ == old(packed)@ + record_bytes(
            (
                path@,
                *entry,
                match copy_source {
                    Some(c) => Some(c@),
                    None => None,
                },
            ),
        ),
{
    let length: u128 = match copy_source {
        Some(c) => path.len() as u128 + 1 + c.len() as u128,
        None => path.len() as u128,
    };
    #[verifier::truncate]
    let length_field = length as i32;
    packed.push(encode_state(entry.state));
    push_be32(packed, entry.mode);
    push_be32(packed, entry.size);
    push_be32(packed, entry.mtime);
    push_be32(packed, length_field);
    packed.extend_from_slice(path);
    match copy_source {
        Some(c) => {
            packed.push(0u8);
            packed.extend_from_slice(c);
        },
        None => {},
    }
    proof {
        let r: Record = (
            path@,
            *entry,
            match copy_source {
                Some(c) => Some(c@),
                None => None,
            },
        );
        assert(length == name_len(r));
        assert(length_field == name_len(r) as i32);
        assert(final(packed)@ =~= old(packed)@ + record_bytes(r));
    }
}

/// A record that the layout can hold: its path has no NUL byte and what
/// follows the header has a length that fits the length field.
pub open spec fn record_fits(r: Record) -> bool {
    &&& forall|k: int| 0 <= k < r.0.len() ==> r.0[k] != 0
    &&& name_len(r) <= i32::MAX
}

pub proof fn lemma_state_round_trip(s: EntryState)
    ensures
        state_of_byte(state_byte(s)) == Some(s),
{
}

/// Reading back the four bytes written for `x` gives `x`.
pub proof fn lemma_be32_round_trip(x: i32, s: Seq<u8>, at: int)
    requires
        0 <= at,
        at + 4 <= s.len(),
        s.subrange(at, at + 4) == be32(x),
    ensures
        read_be32(s, at) == x,
{
    let u = x as u32;
    assert(s[at] == be32(x)[0] && s[at + 1] == be32(x)[1] && s[at + 2] == be32(x)[2] && s[at + 3] == be32(x)[3]);
    assert(((((u >> 24u32) as u8) as u32) << 24u32 | (((u >> 16u32) as u8) as u32) << 16u32 | (((u
        >> 8u32) as u8) as u32) << 8u32 | ((u as u8) as u32)) == u) by (bit_vector);
    assert(((x as u32) as i32) == x) by (bit_vector);
}

/// The bytes of records are those of the first, then those of the rest.
pub proof fn lemma_records_bytes_front(r: Record, rs: Seq<Record>)
    ensures
        records_bytes(seq![r] + rs) == record_bytes(r) + records_bytes(rs),
    decreases rs.len(),
{
    if rs.len() == 0 {
        assert(seq![r] + rs =~= seq![r]);
        assert(seq![r].subrange(0, 0) =~= Seq::<Record>::empty());
        assert(records_bytes(Seq::<Record>::empty()) == Seq::<u8>::empty());
        assert(record_bytes(r) + Seq::<u8>::empty() =~= record_bytes(r));
    } else {
        let pre = rs.subrange(0, rs.len() - 1);
        lemma_records_bytes_front(r, pre);
        assert((seq![r] + rs).subrange(0, rs.len() as int) =~= seq![r] + pre);
        assert(record_bytes(r) + records_bytes(pre) + record_bytes(rs[rs.len() - 1]) =~= record_bytes(r) + (
        records_bytes(pre) + record_bytes(rs[rs.len() - 1])));
    }
}

/// In `a` followed by `b`, where `a` has no NUL byte, the first NUL byte is
/// the first one of `b`.
pub proof fn lemma_first_nul_concat(a: Seq<u8>, b: Seq<u8>)
    requires
        forall|k: int| 0 <= k < a.len() ==> a[k] != 0,
    ensures
        first_nul(a + b) == a.len() + first_nul(b),
    decreases a.len(),
{
    if a.len() == 0 {
        assert(a + b =~= b);
    } else {
        let a1 = a.subrange(1, a.len() as int);
        lemma_first_nul_concat(a1, b);
        assert((a + b).subrange(1, (a + b).len() as int) =~= a1 + b);
    }
}

/// A record written at `pos` is read back there.
pub proof fn lemma_parse_record(img: Seq<u8>, pos: int, r: Record)
    requires
        record_fits(r),
        0 <= pos,
        pos + record_bytes(r).len() <= img.len(),
        img.subrange(pos, pos + record_bytes(r).len()) == record_bytes(r),
    ensures
        header_ok(img, pos),
        record_end(img, pos) == pos + record_bytes(r).len(),
        record_at(img, pos) == r,
{
    let bytes = record_bytes(r);
    let tail = match r.2 {
        Some(c) => seq![0u8] + c,
        None => Seq::<u8>::empty(),
    };
    assert(bytes.len() == 17 + name_len(r));
    assert(img[pos] == bytes[0]);
    lemma_state_round_trip(r.1.state);
    assert(img.subrange(pos + 1, pos + 5) =~= bytes.subrange(1, 5));
    assert(bytes.subrange(1, 5) =~= be32(r.1.mode));
    lemma_be32_round_trip(r.1.mode, img, pos + 1);
    assert(img.subrange(pos + 5, pos + 9) =~= bytes.subrange(5, 9));
    assert(bytes.subrange(5, 9) =~= be32(r.1.size));
    lemma_be32_round_trip(r.1.size, img, pos + 5);
    assert(img.subrange(pos + 9, pos + 13) =~= bytes.subrange(9, 13));
    assert(bytes.subrange(9, 13) =~= be32(r.1.mtime));
    lemma_be32_round_trip(r.1.mtime, img, pos + 9);
    assert(img.subrange(pos + 13, pos + 17) =~= bytes.subrange(13, 17));
    assert(bytes.subrange(13, 17) =~= be32(name_len(r) as i32));
    lemma_be32_round_trip(name_len(r) as i32, img, pos + 13);
    assert(0 <= name_len(r) <= i32::MAX);
    assert((name_len(r) as i32) as int == name_len(r));
    let body = img.subrange(pos + 17, pos + 17 + name_len(r));
    let payload = bytes.subrange(17, bytes.len() as int);
    assert(payload =~= r.0 + tail);
    assert forall|k: int| 0 <= k < body.len() implies body[k] == payload[k] by {
        assert(body[k] == img[pos + 17 + k]);
        assert(img[pos + 17 + k] == img.subrange(pos, pos + bytes.len())[17 + k]);
    }
    assert(body =~= r.0 + tail);
    lemma_first_nul_concat(r.0, tail);
    assert(first_nul(body) == r.0.len());
    assert(body.subrange(0, r.0.len() as int) =~= r.0);
    if let Some(c) = r.2 {
        assert(body.subrange(r.0.len() as int + 1, body.len() as int) =~= c);
    }
}

/// Records written one after the other from `pos` are all read back.
pub proof fn lemma_parse_records(img: Seq<u8>, pos: int, rs: Seq<Record>)
    requires
        forall|k: int| 0 <= k < rs.len() ==> record_fits(#[trigger] rs[k]),
        0 <= pos <= img.len(),
        img.subrange(pos, img.len() as int) == records_bytes(rs),
    ensures
        parse_records(img, pos) == Some(rs),
    decreases rs.len(),
{
    if rs.len() == 0 {
        assert(records_bytes(rs) == Seq::<u8>::empty());
        assert(pos == img.len());
    } else {
        let r = rs[0];
        let rest = rs.subrange(1, rs.len() as int);
        assert(rs =~= seq![r] + rest);
        lemma_records_bytes_front(r, rest);
        assert(records_bytes(rs) == record_bytes(r) + records_bytes(rest));
        let n = record_bytes(r).len();
        assert(img.len() - pos == n + records_bytes(rest).len());
        assert(img.subrange(pos, pos + n) =~= record_bytes(r));
        lemma_parse_record(img, pos, r);
        let w = img.subrange(pos, img.len() as int);
        assert forall|k: int| 0 <= k < img.len() - (pos + n) implies img.subrange(pos + n, img.len() as int)[k]
            == records_bytes(rest)[k] by {
            assert(img.subrange(pos + n, img.len() as int)[k] == w[n + k]);
            assert(w[n + k] == (record_bytes(r) + records_bytes(rest))[n + k]);
        }
        assert(img.subrange(pos + n, img.len() as int) =~= records_bytes(rest));
        assert forall|k: int| 0 <= k < rest.len() implies record_fits(#[trigger] rest[k]) by {
            assert(rest[k] == rs[k + 1]);
        }
        lemma_parse_records(img, pos + n, rest);
        assert(n > 0);
    }
}

/// The parents followed by records that fit, for distinct paths, form a v1
/// image whose records are those.
pub proof fn lemma_v1_image(p: DirstateParents, rs: Seq<Record>)
    requires
        forall|k: int| 0 <= k < rs.len() ==> record_fits(#[trigger] rs[k]),
        distinct_paths(rs),
    ensures
        valid_v1(parents_bytes(p) + records_bytes(rs)),
        parse_records(parents_bytes(p) + records_bytes(rs), PARENTS_SIZE as int) == Some(rs),
        parents_of(parents_bytes(p) + records_bytes(rs)) == (p.p1@, p.p2@),
{
    let img = parents_bytes(p) + records_bytes(rs);
    assert(p.p1@.len() == 20);
    assert(p.p2@.len() == 20);
    assert(img.subrange(40, img.len() as int) =~= records_bytes(rs));
    lemma_parse_records(img, 40, rs);
    assert(img.subrange(0, 20) =~= p.p1@);
    assert(img.subrange(20, 40) =~= p.p2@);
}

} // verus!
