//! The two records of a slotted page: fixed-size offsets in the directory and
//! variable-size cells holding the payloads. Both are stored little-endian,
//! field by field.
use vstd::prelude::*;
use crate::codec::{le_bytes, le_value, read_le, write_le, append_bytes, lemma_le_bytes_len};

verus! {

/// Bytes of one offset record.
pub const OFFSET_SIZE: usize = 16;

/// Bytes of a cell before its payload: its size, the next cell's position and
/// the payload's length.
pub const CELL_HEADER_SIZE: usize = 24;

/// A directory entry: where a cell starts, and the size of its payload.
pub struct Offset {
    pub payload_size: u64,
    pub start_cell_pos: u64,
}

/// A payload with its framing.
pub struct Cell {
    pub cell_size: u64,
    pub next_cell_pos: u64,
    pub payload: Vec<u8>,
}

/// The bytes of an offset record.
pub open spec fn offset_image(payload_size: nat, start_cell_pos: nat) -> Seq<u8> {
    le_bytes(payload_size, 8) + le_bytes(start_cell_pos, 8)
}

/// The bytes of a cell.
pub open spec fn cell_image(cell_size: nat, next_cell_pos: nat, payload: Seq<u8>) -> Seq<u8> {
    le_bytes(cell_size, 8) + le_bytes(next_cell_pos, 8) + le_bytes(payload.len(), 8) + payload
}

pub proof fn lemma_images_len(a: nat, b: nat, c: nat, p: Seq<u8>)
    ensures
        offset_image(a, b).len() == 16,
        cell_image(a, b, p).len() == 24 + p.len(),
{
    lemma_le_bytes_len(a, 8);
    lemma_le_bytes_len(b, 8);
    lemma_le_bytes_len(p.len(), 8);
}

impl Offset {
    pub fn to_bytes(&self) -> (r: Vec<u8>)
        ensures
            r@ == offset_image(self.payload_size as nat, self.start_cell_pos as nat),
    {
        let mut out: Vec<u8> = Vec::new();
        write_le(&mut out, self.payload_size as u128, 8);
        write_le(&mut out, self.start_cell_pos as u128, 8);
        assert(out@ =~= offset_image(self.payload_size as nat, self.start_cell_pos as nat));
        out
    }

    /// Reads the offset record stored at `pos`.
    pub fn from_bytes(bytes: &[u8], pos: usize) -> (r: Offset)
        requires
            pos + OFFSET_SIZE <= bytes@.len(),
        ensures
            r.payload_size == le_value(bytes@.subrange(pos as int, pos + 8)),
            r.start_cell_pos == le_value(bytes@.subrange(pos + 8, pos + 16)),
    {
        let len = bytes.len();
        let a = read_le(bytes, pos, 8);
        let b = read_le(bytes, pos + 8, 8);
        proof {
            crate::codec::lemma_le_value_bound(bytes@.subrange(pos as int, pos + 8));
            crate::codec::lemma_le_value_bound(bytes@.subrange(pos + 8, pos + 16));
            crate::codec::lemma_pow256_widths();
        }
        Offset { payload_size: a as u64, start_cell_pos: b as u64 }
    }
}

impl Cell {
    pub fn to_bytes(&self) -> (r: Vec<u8>)
        ensures
            r@ == cell_image(self.cell_size as nat, self.next_cell_pos as nat, self.payload@),
    {
        let mut out: Vec<u8> = Vec::new();
        write_le(&mut out, self.cell_size as u128, 8);
        write_le(&mut out, self.next_cell_pos as u128, 8);
        write_le(&mut out, self.payload.len() as u128, 8);
        append_bytes(&mut out, self.payload.as_slice());
        assert(out@ =~= cell_image(
            self.cell_size as nat,
            self.next_cell_pos as nat,
            self.payload@,
        ));
        out
    }
}

} // verus!
