//! AFF (Anycubic File Format) container primitives.
//!
//! An AFF file is written sequentially: a file mark, then a series of named
//! tables, each beginning with a 12-byte NUL-padded ASCII name and a 4-byte
//! little-endian body length. Address fields written early are patched in
//! place once the tables they point at have been written.

use vstd::prelude::*;
use vstd::string::StringSliceAdditionalSpecFns;
use crate::cursor::{lemma_written_at_concat, lemma_written_at_end, write_outcome, written_at, Cursor, IoError, SeekFrom};

verus! {

/// The four little-endian bytes of `v`, least significant first.
pub open spec fn u32_le_bytes(v: u32) -> Seq<u8> {
    seq![(v % 256) as u8, ((v / 256) % 256) as u8, ((v / 65536) % 256) as u8, (v / 16777216) as u8]
}

/// The `fixed_len`-byte field holding `bytes`: they are copied from the start,
/// the rest is NUL. Where `bytes` do not fit with room to spare, only the
/// first `fixed_len - 1` are copied, so that the field ends in a NUL.
pub open spec fn padded_field(bytes: Seq<u8>, fixed_len: nat) -> Seq<u8> {
    let copied: int = if bytes.len() >= fixed_len {
        if fixed_len == 0 { 0 } else { fixed_len - 1 }
    } else {
        bytes.len() as int
    };
    Seq::new(fixed_len, |k: int| if k < copied { bytes[k] } else { 0u8 })
}

/// The 16 bytes that open a named table: the name in a 12-byte padded field,
/// then the body length in little-endian order.
pub open spec fn table_header_bytes(name: Seq<u8>, body_length: u32) -> Seq<u8> {
    padded_field(name, 12) + u32_le_bytes(body_length)
}

/// Law: a padded field is exactly `fixed_len` bytes long. A value shorter
/// than the field comes first and NULs fill the rest; a longer one, or one
/// of just the field's length, is cut to `fixed_len - 1` bytes followed by
/// one NUL terminator.
pub proof fn law_padded_field_shape(bytes: Seq<u8>, fixed_len: nat)
    ensures
        padded_field(bytes, fixed_len).len() == fixed_len,
        bytes.len() < fixed_len ==> padded_field(bytes, fixed_len) == bytes + Seq::new(
            (fixed_len - bytes.len()) as nat,
            |_k: int| 0u8,
        ),
        0 < fixed_len <= bytes.len() ==> padded_field(bytes, fixed_len) == bytes.take(fixed_len - 1).push(0u8),
{
    if bytes.len() < fixed_len {
        assert(padded_field(bytes, fixed_len) =~= bytes + Seq::new((fixed_len - bytes.len()) as nat, |_k: int| 0u8));
    }
    if 0 < fixed_len <= bytes.len() {
        assert(padded_field(bytes, fixed_len) =~= bytes.take(fixed_len - 1).push(0u8));
    }
}

/// Law: a table header is 16 bytes: the name field, then the body length,
/// least significant byte first.
pub proof fn law_table_header_shape(name: Seq<u8>, body_length: u32)
    ensures
        table_header_bytes(name, body_length).len() == 16,
        table_header_bytes(name, body_length).take(12) == padded_field(name, 12),
        table_header_bytes(name, body_length).skip(12) == u32_le_bytes(body_length),
        table_header_bytes(name, body_length)[12] + 256 * table_header_bytes(name, body_length)[13] + 65536
            * table_header_bytes(name, body_length)[14] + 16777216 * table_header_bytes(name, body_length)[15]
            == body_length,
{
    let h = table_header_bytes(name, body_length);
    assert(h.take(12) =~= padded_field(name, 12));
    assert(h.skip(12) =~= u32_le_bytes(body_length));
}

/// Law: a table header written at the end of a buffer that has room for it
/// succeeds, appends exactly its 16 bytes and moves the position past them.
pub proof fn law_table_header_appends(
    before: Cursor,
    after: Cursor,
    name: Seq<u8>,
    body_length: u32,
    r: Result<(), IoError>,
)
    requires
        before.at() == before@.len(),
        before.at() + 16 <= usize::MAX,
        write_outcome(before, after, table_header_bytes(name, body_length), r),
    ensures
        r is Ok,
        after@ == before@ + table_header_bytes(name, body_length),
        after@.len() == before@.len() + 16,
        after.at() == before.at() + 16,
{
    law_table_header_shape(name, body_length);
    lemma_written_at_end(before@, table_header_bytes(name, body_length));
}

/// The four little-endian bytes of `v`.
fn u32_le_vec(v: u32) -> (b: Vec<u8>)
    ensures
        b@ == u32_le_bytes(v),
{
    let mut b: Vec<u8> = Vec::new();
    b.push((v % 256) as u8);
    b.push(((v / 256) % 256) as u8);
    b.push(((v / 65536) % 256) as u8);
    b.push((v / 16777216) as u8);
    assert(b@ =~= u32_le_bytes(v));
    b
}

/// Writes `v` as four little-endian bytes.
pub fn write_u32_le(out: &mut Cursor, v: u32) -> (r: Result<(), IoError>)
    ensures
        write_outcome(*old(out), *final(out), u32_le_bytes(v), r),
{
    let b = u32_le_vec(v);
    out.write_all(b.as_slice())
}

/// Writes `value` padded with NUL bytes to exactly `fixed_len` bytes. A value
/// that does not fit with room to spare is truncated so that at least one NUL
/// terminator remains.
pub fn write_padded_string(out: &mut Cursor, value: &str, fixed_len: usize) -> (r: Result<(), IoError>)
    ensures
        write_outcome(*old(out), *final(out), padded_field(value.spec_bytes(), fixed_len as nat), r),
{
    let bytes = value.as_bytes();
    let max_copy: usize = if bytes.len() >= fixed_len {
        if fixed_len == 0 { 0 } else { fixed_len - 1 }
    } else {
        bytes.len()
    };
    let mut buf: Vec<u8> = Vec::new();
    let mut i: usize = 0;
    while i < fixed_len
        invariant
            i <= fixed_len,
            max_copy <= bytes@.len(),
            max_copy <= fixed_len,
            max_copy == (if bytes@.len() >= fixed_len {
                if fixed_len == 0 { 0int } else { fixed_len - 1 }
            } else {
                bytes@.len() as int
            }),
            buf@.len() == i,
            forall|k: int| 0 <= k < i ==> buf@[k] == (if k < max_copy { bytes@[k] } else { 0u8 }),
        decreases fixed_len - i,
    {
        if i < max_copy {
            buf.push(bytes[i]);
        } else {
            buf.push(0u8);
        }
        i = i + 1;
    }
    assert(buf@ =~= padded_field(value.spec_bytes(), fixed_len as nat));
    out.write_all(buf.as_slice())
}

/// Writes the 12-byte NUL-padded table name followed by the 4-byte
/// little-endian body length. Where only the name fits, it is written and the
/// length is refused.
pub fn write_named_table_header(out: &mut Cursor, name: &str, body_length: u32) -> (r: Result<(), IoError>)
    ensures
        old(out).at() + 16 <= usize::MAX ==> write_outcome(
            *old(out),
            *final(out),
            table_header_bytes(name.spec_bytes(), body_length),
            r,
        ),
        usize::MAX < old(out).at() + 16 ==> r == Err::<(), IoError>(IoError::PositionTooLarge),
        usize::MAX < old(out).at() + 12 ==> final(out)@ == old(out)@ && final(out).at() == old(out).at(),
        old(out).at() + 12 <= usize::MAX < old(out).at() + 16 ==> {
            &&& final(out)@ == written_at(old(out)@, old(out).at() as nat, padded_field(name.spec_bytes(), 12))
            &&& final(out).at() == old(out).at() + 12
        },
{
    let ghost before = out@;
    let ghost at = out.at();
    write_padded_string(out, name, 12)?;
    let r = write_u32_le(out, body_length);
    proof {
        lemma_written_at_concat(
            before,
            at as nat,
            padded_field(name.spec_bytes(), 12),
            u32_le_bytes(body_length),
        );
    }
    r
}

/// Overwrites the four bytes at `abs_offset` with `v` in little-endian order
/// and returns to the position held before the call. Where the bytes cannot be
/// written, the cursor is left at `abs_offset` with its bytes unchanged.
pub fn patch_u32_le(out: &mut Cursor, abs_offset: u64, v: u32) -> (r: Result<(), IoError>)
    ensures
        abs_offset + 4 <= usize::MAX ==> {
            &&& r is Ok
            &&& final(out)@ == written_at(old(out)@, abs_offset as nat, u32_le_bytes(v))
            &&& final(out).at() == old(out).at()
        },
        usize::MAX < abs_offset + 4 ==> {
            &&& r == Err::<(), IoError>(IoError::PositionTooLarge)
            &&& final(out)@ == old(out)@
            &&& final(out).at() == abs_offset
        },
{
    let saved = out.position();
    out.seek(SeekFrom::Start(abs_offset))?;
    write_u32_le(out, v)?;
    out.seek(SeekFrom::Start(saved))?;
    Ok(())
}

} // verus!
