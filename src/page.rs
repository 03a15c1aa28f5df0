//! A slotted page: a fixed 4096-byte body whose low end holds a directory of
//! fixed-size offset records and whose high end holds the cells, growing
//! toward each other; and the pager that stores page images in a file image.
use vstd::prelude::*;
use crate::cell::{
    Cell, Offset, CELL_HEADER_SIZE, OFFSET_SIZE, cell_image, lemma_images_len, offset_image,
};
use crate::codec::{
    copy_range, le_bytes, le_value, lemma_le_bytes_len, lemma_le_round_trip, lemma_le_value_bound,
    lemma_pow256_widths, read_le, write_le,
};

verus! {

/// Bytes of a page body.
pub const PAGE_SIZE: usize = 4096;

/// Bytes of a page header image: magic, reserved byte, three cursors, and
/// eight bytes of zero padding.
pub const HEADER_SIZE: usize = 40;

/// Bytes of a page image: header, then body.
pub const PAGE_IMAGE_SIZE: usize = 4136;

/// The magic bytes that open every page: `btree` and two zero bytes.
pub open spec fn magic() -> Seq<u8> {
    seq![98u8, 116u8, 114u8, 101u8, 101u8, 0u8, 0u8]
}

#[derive(PartialEq, Eq, Structural, Clone, Copy, Debug)]
pub enum PageError {
    /// No room for the payload's cell and offset record.
    PageFull,
    /// A cursor would pass the body's end.
    CursorOverflow,
    /// No offset record has that index.
    SlotOutOfRange,
    /// An offset record points at bytes that do not hold a whole cell.
    CorruptCell,
    /// The file image ends before the page image does.
    ShortRead,
    /// The bytes read do not form a valid page header.
    CorruptHeader,
}

pub struct HeaderView {
    pub magic: Seq<u8>,
    pub reserved: u8,
    pub offset_cursor: u64,
    pub cell_cursor: u64,
    pub total_body_size: u64,
}

pub struct SlottedHeader {
    magic: [u8; 7],
    reserved: u8,
    offset_cursor: u64,
    cell_cursor: u64,
    total_body_size: u64,
}

impl View for SlottedHeader {
    type V = HeaderView;

    closed spec fn view(&self) -> HeaderView {
        HeaderView {
            magic: self.magic@,
            reserved: self.reserved,
            offset_cursor: self.offset_cursor,
            cell_cursor: self.cell_cursor,
            total_body_size: self.total_body_size,
        }
    }
}

/// The header with its offset cursor moved to `oc`.
pub open spec fn with_offset_cursor(h: HeaderView, oc: u64) -> HeaderView {
    HeaderView {
        magic: h.magic,
        reserved: h.reserved,
        offset_cursor: oc,
        cell_cursor: h.cell_cursor,
        total_body_size: h.total_body_size,
    }
}

/// The header with its cell cursor moved to `cc`.
pub open spec fn with_cell_cursor(h: HeaderView, cc: u64) -> HeaderView {
    HeaderView {
        magic: h.magic,
        reserved: h.reserved,
        offset_cursor: h.offset_cursor,
        cell_cursor: cc,
        total_body_size: h.total_body_size,
    }
}

impl SlottedHeader {
    pub fn new(total_body_size: u64) -> (h: Self)
        ensures
            h@ == (HeaderView {
                magic: magic(),
                reserved: 0,
                offset_cursor: 0,
                cell_cursor: 0,
                total_body_size,
            }),
    {
        let h = SlottedHeader {
            magic: [98u8, 116u8, 114u8, 101u8, 101u8, 0u8, 0u8],
            reserved: 0,
            offset_cursor: 0,
            cell_cursor: 0,
            total_body_size,
        };
        assert(h.magic@ =~= magic());
        h
    }

    pub fn magic(&self) -> (r: [u8; 7])
        ensures
            r@ == self@.magic,
    {
        self.magic
    }

    pub fn offset_cursor(&self) -> (r: u64)
        ensures
            r == self@.offset_cursor,
    {
        self.offset_cursor
    }

    pub fn cell_cursor(&self) -> (r: u64)
        ensures
            r == self@.cell_cursor,
    {
        self.cell_cursor
    }

    pub fn total_body_size(&self) -> (r: u64)
        ensures
            r == self@.total_body_size,
    {
        self.total_body_size
    }

    /// The offset cursor after a further `offset_size` bytes of directory, if
    /// the two regions still fit the body.
    pub fn try_add_offset_cursor(&self, offset_size: usize) -> (r: Result<u64, PageError>)
        ensures
            self@.offset_cursor + offset_size + self@.cell_cursor <= self@.total_body_size ==> r
                == Ok::<u64, PageError>((self@.offset_cursor + offset_size) as u64),
            self@.offset_cursor + offset_size + self@.cell_cursor > self@.total_body_size ==> r
                == Err::<u64, PageError>(PageError::CursorOverflow),
    {
        let n = self.offset_cursor as u128 + offset_size as u128;
        if n + self.cell_cursor as u128 > self.total_body_size as u128 {
            Err(PageError::CursorOverflow)
        } else {
            Ok(n as u64)
        }
    }

    pub fn add_offset_cursor(&mut self, offset_size: usize) -> (r: Result<u64, PageError>)
        ensures
            r == old(self).try_add_offset_cursor_spec(offset_size),
            r matches Ok(n) ==> final(self)@ == with_offset_cursor(old(self)@, n),
            r is Err ==> final(self)@ == old(self)@,
    {
        let r = self.try_add_offset_cursor(offset_size);
        if let Ok(n) = r {
            self.offset_cursor = n;
        }
        r
    }

    /// What `try_add_offset_cursor` returns.
    pub open spec fn try_add_offset_cursor_spec(&self, offset_size: usize) -> Result<u64, PageError> {
        if self@.offset_cursor + offset_size + self@.cell_cursor <= self@.total_body_size {
            Ok((self@.offset_cursor + offset_size) as u64)
        } else {
            Err(PageError::CursorOverflow)
        }
    }

    /// The cell cursor after a further `cell_size` bytes of cells, if the two
    /// regions still fit the body.
    pub fn try_add_cell_cursor(&self, cell_size: usize) -> (r: Result<u64, PageError>)
        ensures
            r == self.try_add_cell_cursor_spec(cell_size),
    {
        let n = self.cell_cursor as u128 + cell_size as u128;
        if self.offset_cursor as u128 + n > self.total_body_size as u128 {
            Err(PageError::CursorOverflow)
        } else {
            Ok(n as u64)
        }
    }

    /// What `try_add_cell_cursor` returns.
    pub open spec fn try_add_cell_cursor_spec(&self, cell_size: usize) -> Result<u64, PageError> {
        if self@.offset_cursor + self@.cell_cursor + cell_size <= self@.total_body_size {
            Ok((self@.cell_cursor + cell_size) as u64)
        } else {
            Err(PageError::CursorOverflow)
        }
    }

    pub fn add_cell_cursor(&mut self, cell_size: usize) -> (r: Result<u64, PageError>)
        ensures
            r == old(self).try_add_cell_cursor_spec(cell_size),
            r matches Ok(n) ==> final(self)@ == with_cell_cursor(old(self)@, n),
            r is Err ==> final(self)@ == old(self)@,
    {
        let r = self.try_add_cell_cursor(cell_size);
        if let Ok(n) = r {
            self.cell_cursor = n;
        }
        r
    }
}

pub struct PageView {
    pub header: HeaderView,
    pub body: Seq<u8>,
}

/// A page as this format lays it out: the magic, a body of `PAGE_SIZE` bytes,
/// cursors that together stay within it, and whole offset records.
pub open spec fn page_wf(v: PageView) -> bool {
    &&& v.header.magic == magic()
    &&& v.header.total_body_size == PAGE_SIZE
    &&& v.body.len() == PAGE_SIZE
    &&& v.header.offset_cursor + v.header.cell_cursor <= v.header.total_body_size
    &&& v.header.offset_cursor % 16 == 0
}

/// The number of offset records in the directory.
pub open spec fn slot_count(v: PageView) -> int {
    v.header.offset_cursor as int / 16
}

/// Where the cell of offset record `i` starts.
pub open spec fn offset_start(v: PageView, i: int) -> int {
    le_value(v.body.subrange(16 * i + 8, 16 * i + 16)) as int
}

/// The payload that `read_payload(i)` returns: record `i` must lie before the
/// offset cursor, and the cell it points at must lie inside the body and be
/// large enough for its payload.
pub open spec fn payload_at(v: PageView, i: int) -> Option<Seq<u8>> {
    if i < 0 || 16 * i >= v.header.offset_cursor || 16 * i + 16 > v.body.len() {
        None
    } else {
        let start = offset_start(v, i);
        if start + 24 > v.body.len() {
            None
        } else {
            let csize = le_value(v.body.subrange(start, start + 8)) as int;
            if csize < 24 || start + csize > v.body.len() {
                None
            } else {
                let plen = le_value(v.body.subrange(start + 16, start + 24)) as int;
                if 24 + plen > csize {
                    None
                } else {
                    Some(v.body.subrange(start + 24, start + 24 + plen))
                }
            }
        }
    }
}

/// Every offset record points at a readable cell in the cell region.
pub open spec fn layout_ok(v: PageView) -> bool {
    forall|i: int|
        0 <= i < slot_count(v) ==> offset_start(v, i) >= v.header.total_body_size
            - v.header.cell_cursor && (#[trigger] payload_at(v, i)) is Some
}

/// Whether a payload's cell and offset record still fit.
pub open spec fn fits(v: PageView, p: Seq<u8>) -> bool {
    v.header.offset_cursor + OFFSET_SIZE + v.header.cell_cursor + CELL_HEADER_SIZE + p.len()
        <= v.header.total_body_size
}

/// `s` with the bytes at `at..` replaced by `src`.
pub open spec fn write_at(s: Seq<u8>, at: int, src: Seq<u8>) -> Seq<u8> {
    s.subrange(0, at) + src + s.subrange(at + src.len(), s.len() as int)
}

/// The page after adding payload `p`: its cell is written just below the cell
/// region, its offset record just after the directory, and both cursors move.
pub open spec fn add_spec(v: PageView, p: Seq<u8>) -> PageView {
    let cs = 24 + p.len();
    let from = v.header.total_body_size - v.header.cell_cursor - cs;
    PageView {
        header: HeaderView {
            magic: v.header.magic,
            reserved: v.header.reserved,
            offset_cursor: (v.header.offset_cursor + 16) as u64,
            cell_cursor: (v.header.cell_cursor + cs) as u64,
            total_body_size: v.header.total_body_size,
        },
        body: write_at(
            write_at(v.body, from, cell_image(cs as nat, 0, p)),
            v.header.offset_cursor as int,
            offset_image(p.len(), from as nat),
        ),
    }
}

/// A fresh page: empty directory, empty cell region, zeroed body.
pub open spec fn empty_page() -> PageView {
    PageView {
        header: HeaderView {
            magic: magic(),
            reserved: 0,
            offset_cursor: 0,
            cell_cursor: 0,
            total_body_size: PAGE_SIZE as u64,
        },
        body: Seq::new(PAGE_SIZE as nat, |i: int| 0u8),
    }
}

proof fn lemma_same_range(a: Seq<u8>, b: Seq<u8>, x: int, y: int)
    requires
        0 <= x <= y <= a.len(),
        a.len() == b.len(),
        forall|q: int| x <= q < y ==> a[q] == b[q],
    ensures
        a.subrange(x, y) == b.subrange(x, y),
{
    assert(a.subrange(x, y) =~= b.subrange(x, y));
}

/// Adding a payload that fits keeps the page well formed, makes the payload
/// readable at the next index, and leaves every earlier payload readable as
/// it was.
pub proof fn lemma_add_spec(v: PageView, p: Seq<u8>)
    requires
        page_wf(v),
        fits(v, p),
    ensures
        page_wf(add_spec(v, p)),
        slot_count(add_spec(v, p)) == slot_count(v) + 1,
        payload_at(add_spec(v, p), slot_count(v)) == Some(p),
        layout_ok(v) ==> layout_ok(add_spec(v, p)),
        layout_ok(v) ==> forall|i: int|
            0 <= i < slot_count(v) ==> #[trigger] payload_at(add_spec(v, p), i) == payload_at(v, i),
{
    let oc = v.header.offset_cursor as int;
    let cc = v.header.cell_cursor as int;
    let total = v.header.total_body_size as int;
    let cs = 24 + p.len();
    let from = total - cc - cs;
    let ci = cell_image(cs as nat, 0, p);
    let oi = offset_image(p.len(), from as nat);
    lemma_images_len(cs as nat, 0, 0, p);
    lemma_images_len(p.len(), from as nat, 0, p);
    let w1 = write_at(v.body, from, ci);
    let w = add_spec(v, p).body;
    let nv = add_spec(v, p);
    assert(w1.len() == v.body.len());
    assert(w.len() == v.body.len());
    assert forall|q: int| 0 <= q < w.len() && (q < oc || (oc + 16 <= q && q < from) || q >= from + cs)
        implies #[trigger] w[q] == v.body[q] by {
        if q < oc || q >= oc + 16 {
            assert(w[q] == w1[q]);
        }
    }
    assert forall|q: int| from <= q < from + cs implies #[trigger] w[q] == ci[q - from] by {
        assert(w[q] == w1[q]);
    }
    assert forall|q: int| oc <= q < oc + 16 implies #[trigger] w[q] == oi[q - oc] by {}
    lemma_pow256_widths();
    lemma_le_bytes_len(p.len(), 8);
    lemma_le_bytes_len(from as nat, 8);
    lemma_le_bytes_len(cs as nat, 8);
    lemma_le_bytes_len(0, 8);
    // The new offset record and its cell.
    let i0 = oc / 16;
    assert(16 * i0 == oc);
    assert(w.subrange(oc + 8, oc + 16) =~= le_bytes(from as nat, 8));
    lemma_le_round_trip(from as nat, 8);
    assert(offset_start(nv, i0) == from);
    assert(w.subrange(from, from + 8) =~= le_bytes(cs as nat, 8));
    lemma_le_round_trip(cs as nat, 8);
    assert(w.subrange(from + 16, from + 24) =~= le_bytes(p.len(), 8));
    lemma_le_round_trip(p.len(), 8);
    assert(w.subrange(from + 24, from + 24 + p.len()) =~= p);
    assert(payload_at(nv, i0) == Some(p));
    if layout_ok(v) {
        assert forall|i: int| 0 <= i < slot_count(v) implies #[trigger] payload_at(nv, i)
            == payload_at(v, i) && offset_start(nv, i) == offset_start(v, i) by {
            assert(16 * i + 16 <= oc);
            lemma_same_range(w, v.body, 16 * i + 8, 16 * i + 16);
            assert(payload_at(v, i) is Some);
            let s = offset_start(v, i);
            assert(s >= total - cc);
            let csize = le_value(v.body.subrange(s, s + 8)) as int;
            lemma_same_range(w, v.body, s, s + 8);
            lemma_same_range(w, v.body, s + 16, s + 24);
            let plen = le_value(v.body.subrange(s + 16, s + 24)) as int;
            lemma_same_range(w, v.body, s + 24, s + 24 + plen);
        }
        assert forall|i: int| 0 <= i < slot_count(nv) implies offset_start(nv, i)
            >= nv.header.total_body_size - nv.header.cell_cursor && (#[trigger] payload_at(
            nv,
            i,
        )) is Some by {
            if i < slot_count(v) {
                assert(payload_at(nv, i) == payload_at(v, i));
            }
        }
    }
}

pub struct SlottedPage {
    header: SlottedHeader,
    body: Vec<u8>,
}

impl View for SlottedPage {
    type V = PageView;

    closed spec fn view(&self) -> PageView {
        PageView { header: self.header@, body: self.body@ }
    }
}

/// Overwrites `body[at..at + src.len()]` with `src`.
fn write_bytes(body: &mut Vec<u8>, at: usize, src: &[u8])
    requires
        at + src@.len() <= old(body)@.len(),
    ensures
        final(body)@ == write_at(old(body)@, at as int, src@),
{
    let mut i: usize = 0;
    let len = body.len();
    while i < src.len()
        invariant
            i <= src@.len(),
            len == body@.len(),
            at + src@.len() <= body@.len(),
            body@.len() == old(body)@.len(),
            forall|q: int| 0 <= q < body@.len() && (q < at || q >= at + i) ==> body@[q] == old(body)@[q],
            forall|q: int| at <= q < at + i ==> body@[q] == src@[q - at],
        decreases src@.len() - i,
    {
        body.set(at + i, src[i]);
        i = i + 1;
    }
    assert(body@ =~= write_at(old(body)@, at as int, src@));
}

/// The bytes of a header image.
pub open spec fn header_image(h: HeaderView) -> Seq<u8> {
    h.magic + seq![h.reserved] + le_bytes(h.offset_cursor as nat, 8) + le_bytes(
        h.cell_cursor as nat,
        8,
    ) + le_bytes(h.total_body_size as nat, 8) + le_bytes(0, 8)
}

/// The bytes of a page image.
pub open spec fn page_image(v: PageView) -> Seq<u8> {
    header_image(v.header) + v.body
}

/// The page that an image denotes.
pub open spec fn image_view(s: Seq<u8>) -> PageView {
    PageView {
        header: HeaderView {
            magic: s.subrange(0, 7),
            reserved: s[7],
            offset_cursor: le_value(s.subrange(8, 16)) as u64,
            cell_cursor: le_value(s.subrange(16, 24)) as u64,
            total_body_size: le_value(s.subrange(24, 32)) as u64,
        },
        body: s.subrange(40, 4136),
    }
}

/// An image that `unpack` accepts: the whole image, zero padding, and a well
/// formed page.
pub open spec fn image_valid(s: Seq<u8>) -> bool {
    &&& s.len() == PAGE_IMAGE_SIZE
    &&& le_value(s.subrange(32, 40)) == 0
    &&& page_wf(image_view(s))
}

/// Page round trip, second half: the image of a well formed page is valid and
/// denotes that page, header and body alike.
pub proof fn lemma_image_round_trip(v: PageView)
    requires
        page_wf(v),
    ensures
        image_valid(page_image(v)),
        image_view(page_image(v)) == v,
{
    let s = page_image(v);
    let h = v.header;
    lemma_le_bytes_len(h.offset_cursor as nat, 8);
    lemma_le_bytes_len(h.cell_cursor as nat, 8);
    lemma_le_bytes_len(h.total_body_size as nat, 8);
    lemma_le_bytes_len(0, 8);
    lemma_pow256_widths();
    assert(s.subrange(0, 7) =~= h.magic);
    assert(s.subrange(8, 16) =~= le_bytes(h.offset_cursor as nat, 8));
    assert(s.subrange(16, 24) =~= le_bytes(h.cell_cursor as nat, 8));
    assert(s.subrange(24, 32) =~= le_bytes(h.total_body_size as nat, 8));
    assert(s.subrange(32, 40) =~= le_bytes(0, 8));
    assert(s.subrange(40, 4136) =~= v.body);
    lemma_le_round_trip(h.offset_cursor as nat, 8);
    lemma_le_round_trip(h.cell_cursor as nat, 8);
    lemma_le_round_trip(h.total_body_size as nat, 8);
    lemma_le_round_trip(0, 8);
    assert(image_view(s).header == h);
}

/// The page after adding each payload of `ps` in turn to `v`.
pub open spec fn fill(v: PageView, ps: Seq<Seq<u8>>) -> PageView
    decreases ps.len(),
{
    if ps.len() == 0 {
        v
    } else {
        add_spec(fill(v, ps.drop_last()), ps.last())
    }
}

/// Every payload of `ps` fits when its turn comes.
pub open spec fn fills(v: PageView, ps: Seq<Seq<u8>>) -> bool
    decreases ps.len(),
{
    ps.len() == 0 || (fills(v, ps.drop_last()) && fits(fill(v, ps.drop_last()), ps.last()))
}

/// Page round trip, first half: after payloads are added one by one to a
/// fresh page, each succeeding, slot `i` reads back the `i`-th payload.
pub proof fn lemma_payload_round_trip(ps: Seq<Seq<u8>>)
    requires
        fills(empty_page(), ps),
    ensures
        page_wf(fill(empty_page(), ps)),
        layout_ok(fill(empty_page(), ps)),
        slot_count(fill(empty_page(), ps)) == ps.len(),
        forall|i: int| 0 <= i < ps.len() ==> #[trigger] payload_at(fill(empty_page(), ps), i) == Some(ps[i]),
    decreases ps.len(),
{
    if ps.len() > 0 {
        let init = ps.drop_last();
        lemma_payload_round_trip(init);
        let v = fill(empty_page(), init);
        lemma_add_spec(v, ps.last());
        assert forall|i: int| 0 <= i < ps.len() implies #[trigger] payload_at(
            fill(empty_page(), ps),
            i,
        ) == Some(ps[i]) by {
            if i < init.len() {
                assert(payload_at(v, i) == Some(init[i]));
            }
        }
    }
}

impl SlottedPage {
    pub open spec fn wf(&self) -> bool {
        page_wf(self@)
    }

    pub fn header(&self) -> (r: &SlottedHeader)
        ensures
            r@ == self@.header,
    {
        &self.header
    }

    /// A fresh page with a zeroed body.
    pub fn new() -> (p: Self)
        ensures
            p@ == empty_page(),
            p.wf(),
            layout_ok(p@),
    {
        let header = SlottedHeader::new(PAGE_SIZE as u64);
        let body: Vec<u8> = vec![0u8; PAGE_SIZE];
        let p = SlottedPage { header, body };
        assert(p@.body =~= empty_page().body);
        p
    }

    /// Writes the cell of `payload` just below the cell region; returns where
    /// it starts and its size.
    fn write_cell_to_body(&mut self, payload: &Vec<u8>) -> (r: (usize, usize))
        requires
            old(self).wf(),
            fits(old(self)@, payload@),
        ensures
            r.1 == 24 + payload@.len(),
            r.0 == old(self)@.header.total_body_size - old(self)@.header.cell_cursor - r.1,
            final(self)@.header == old(self)@.header,
            final(self)@.body == write_at(
                old(self)@.body,
                r.0 as int,
                cell_image(r.1 as nat, 0, payload@),
            ),
    {
        let cell_size = CELL_HEADER_SIZE + payload.len();
        let cell = Cell { cell_size: cell_size as u64, next_cell_pos: 0, payload: crate::ds::copy_bytes(payload) };
        let bytes = cell.to_bytes();
        proof {
            lemma_images_len(cell_size as nat, 0, 0, payload@);
        }
        let to = (self.header.total_body_size - self.header.cell_cursor) as usize;
        let from = to - bytes.len();
        write_bytes(&mut self.body, from, bytes.as_slice());
        (from, cell_size)
    }

    /// Writes the offset record of a payload of `payload_len` bytes whose cell
    /// starts at `cell_start_pos`, just after the directory; returns its size.
    fn write_offset_to_body(&mut self, payload_len: usize, cell_start_pos: usize) -> (r: usize)
        requires
            old(self).wf(),
            old(self)@.header.offset_cursor + 16 <= PAGE_SIZE,
        ensures
            r == OFFSET_SIZE,
            final(self)@.header == old(self)@.header,
            final(self)@.body == write_at(
                old(self)@.body,
                old(self)@.header.offset_cursor as int,
                offset_image(payload_len as nat, cell_start_pos as nat),
            ),
    {
        let offset = Offset { payload_size: payload_len as u64, start_cell_pos: cell_start_pos as u64 };
        let bytes = offset.to_bytes();
        proof {
            lemma_images_len(payload_len as nat, cell_start_pos as nat, 0, Seq::empty());
        }
        let from = self.header.offset_cursor as usize;
        write_bytes(&mut self.body, from, bytes.as_slice());
        bytes.len()
    }

    /// Adds a payload: fails with `PageFull`, leaving the page as it was, when
    /// its cell and offset record do not fit.
    pub fn add_payload(&mut self, payload: &Vec<u8>) -> (r: Result<(), PageError>)
        requires
            old(self).wf(),
        ensures
            final(self).wf(),
            r is Ok <==> fits(old(self)@, payload@),
            r is Ok ==> final(self)@ == add_spec(old(self)@, payload@),
            r is Err ==> r == Err::<(), PageError>(PageError::PageFull) && final(self)@ == old(
                self,
            )@,
    {
        let oc = self.header.offset_cursor as u128;
        let cc = self.header.cell_cursor as u128;
        if oc + OFFSET_SIZE as u128 + cc + CELL_HEADER_SIZE as u128 + payload.len() as u128
            > self.header.total_body_size as u128 {
            return Err(PageError::PageFull);
        }
        let ghost v = self@;
        proof {
            lemma_add_spec(v, payload@);
        }
        let (start_cell_pos, cell_size) = self.write_cell_to_body(payload);
        let offset_size = self.write_offset_to_body(payload.len(), start_cell_pos);
        let r1 = self.header.add_offset_cursor(offset_size);
        let r2 = self.header.add_cell_cursor(cell_size);
        if r1.is_err() || r2.is_err() {
            return Err(PageError::CursorOverflow);
        }
        assert(self@.header =~~= add_spec(v, payload@).header);
        Ok(())
    }

    /// Reads offset record `offset_index`.
    fn read_offset_from_body(&self, offset_index: usize) -> (r: Result<Offset, PageError>)
        requires
            self.wf(),
        ensures
            16 * offset_index >= self@.header.offset_cursor ==> r == Err::<Offset, PageError>(
                PageError::SlotOutOfRange,
            ),
            16 * offset_index < self@.header.offset_cursor ==> (r matches Ok(o) && o.start_cell_pos
                == offset_start(self@, offset_index as int)),
    {
        if offset_index as u128 * 16 >= self.header.offset_cursor as u128 {
            return Err(PageError::SlotOutOfRange);
        }
        let from = offset_index * OFFSET_SIZE;
        let offset = Offset::from_bytes(self.body.as_slice(), from);
        Ok(offset)
    }

    /// The cell size stored at the start of the cell that `offset` points at.
    fn get_cell_size_from_buffer(&self, offset: &Offset) -> (r: u64)
        requires
            offset.start_cell_pos + 8 <= self@.body.len(),
        ensures
            r == le_value(
                self@.body.subrange(offset.start_cell_pos as int, offset.start_cell_pos + 8),
            ),
    {
        let len = self.body.len();
        assert(offset.start_cell_pos < len as u64);
        let from = offset.start_cell_pos as usize;
        let size = read_le(self.body.as_slice(), from, 8);
        proof {
            assert(self@.body == self.body@);
            lemma_le_value_bound(self@.body.subrange(from as int, from + 8));
            lemma_pow256_widths();
        }
        size as u64
    }

    /// Reads the cell that `offset` points at.
    fn read_cell_from_body(&self, offset: &Offset) -> (r: Result<Cell, PageError>)
        requires
            self.wf(),
        ensures
            ({
                let start = offset.start_cell_pos as int;
                let v = self@;
                if start + 24 > v.body.len() {
                    r is Err
                } else {
                    let csize = le_value(v.body.subrange(start, start + 8)) as int;
                    let plen = le_value(v.body.subrange(start + 16, start + 24)) as int;
                    if csize < 24 || start + csize > v.body.len() || 24 + plen > csize {
                        r is Err
                    } else {
                        (r matches Ok(c) && c.payload@ == v.body.subrange(start + 24, start + 24 + plen))
                    }
                }
            }),
    {
        let len = self.body.len();
        if offset.start_cell_pos > (len - CELL_HEADER_SIZE) as u64 {
            return Err(PageError::CorruptCell);
        }
        let from = offset.start_cell_pos as usize;
        let cell_size = self.get_cell_size_from_buffer(offset);
        if cell_size < CELL_HEADER_SIZE as u64 || cell_size > (len - from) as u64 {
            return Err(PageError::CorruptCell);
        }
        let next = read_le(self.body.as_slice(), from + 8, 8);
        let plen = read_le(self.body.as_slice(), from + 16, 8);
        if plen > (cell_size - CELL_HEADER_SIZE as u64) as u128 {
            return Err(PageError::CorruptCell);
        }
        let p = plen as usize;
        let payload = copy_range(self.body.as_slice(), from + 24, from + 24 + p);
        proof {
            lemma_le_value_bound(self@.body.subrange(from + 8, from + 16));
            lemma_pow256_widths();
        }
        Ok(Cell { cell_size, next_cell_pos: next as u64, payload })
    }

    /// The payload of slot `offset_index`.
    pub fn read_payload(&self, offset_index: usize) -> (r: Result<Vec<u8>, PageError>)
        requires
            self.wf(),
        ensures
            match payload_at(self@, offset_index as int) {
                Some(p) => (r matches Ok(v) && v@ == p),
                None => r is Err,
            },
            16 * offset_index >= self@.header.offset_cursor ==> r == Err::<Vec<u8>, PageError>(
                PageError::SlotOutOfRange,
            ),
    {
        let offset = self.read_offset_from_body(offset_index)?;
        let cell = self.read_cell_from_body(&offset)?;
        Ok(cell.payload)
    }

    /// The page's image: header, then body.
    pub fn to_image(&self) -> (r: Vec<u8>)
        requires
            self.wf(),
        ensures
            r@ == page_image(self@),
    {
        let mut out: Vec<u8> = Vec::new();
        let mut i: usize = 0;
        while i < 7
            invariant
                i <= 7,
                out@ == self.header.magic@.subrange(0, i as int),
            decreases 7 - i,
        {
            out.push(self.header.magic[i]);
            i = i + 1;
            assert(out@ =~= self.header.magic@.subrange(0, i as int));
        }
        assert(self.header.magic@.subrange(0, 7) =~= self.header.magic@);
        out.push(self.header.reserved);
        write_le(&mut out, self.header.offset_cursor as u128, 8);
        write_le(&mut out, self.header.cell_cursor as u128, 8);
        write_le(&mut out, self.header.total_body_size as u128, 8);
        write_le(&mut out, 0, 8);
        crate::codec::append_bytes(&mut out, self.body.as_slice());
        assert(out@ =~= page_image(self@));
        out
    }

    /// Stores the page's image in the file image `file` at byte `pos`,
    /// extending the file with zero bytes where it is shorter; returns the
    /// number of bytes written.
    pub fn pack(page: &Self, file: &mut Vec<u8>, pos: u64) -> (n: usize)
        requires
            page.wf(),
            pos + PAGE_IMAGE_SIZE <= usize::MAX,
        ensures
            n == PAGE_IMAGE_SIZE,
            final(file)@.len() == if old(file)@.len() > pos + PAGE_IMAGE_SIZE {
                old(file)@.len() as int
            } else {
                pos + PAGE_IMAGE_SIZE
            },
            final(file)@.subrange(pos as int, pos + PAGE_IMAGE_SIZE) == page_image(page@),
            forall|q: int|
                0 <= q < old(file)@.len() && (q < pos || q >= pos + PAGE_IMAGE_SIZE) ==> final(file)@[q]
                    == old(file)@[q],
            forall|q: int| old(file)@.len() <= q < pos ==> final(file)@[q] == 0,
    {
        let image = page.to_image();
        proof {
            lemma_image_round_trip(page@);
        }
        let at = pos as usize;
        let end = at + PAGE_IMAGE_SIZE;
        let ghost start = file@;
        while file.len() < end
            invariant
                end == pos + PAGE_IMAGE_SIZE,
                file@.len() <= end || file@.len() == start.len(),
                start.len() <= file@.len(),
                forall|q: int| 0 <= q < start.len() ==> #[trigger] file@[q] == start[q],
                forall|q: int| start.len() <= q < file@.len() ==> #[trigger] file@[q] == 0,
            decreases end - file@.len(),
        {
            file.push(0u8);
        }
        write_bytes(file, at, image.as_slice());
        image.len()
    }

    /// Reads the page image stored in the file image `file` at byte `pos`.
    pub fn unpack(file: &Vec<u8>, pos: u64) -> (r: Result<Self, PageError>)
        ensures
            file@.len() < pos + PAGE_IMAGE_SIZE ==> r == Err::<Self, PageError>(PageError::ShortRead),
            file@.len() >= pos + PAGE_IMAGE_SIZE ==> {
                let s = file@.subrange(pos as int, pos + PAGE_IMAGE_SIZE);
                &&& r is Ok <==> image_valid(s)
                &&& (r matches Ok(q) ==> q@ == image_view(s) && q.wf())
                &&& !image_valid(s) ==> r == Err::<Self, PageError>(PageError::CorruptHeader)
            },
    {
        let len = file.len();
        if pos > len as u64 || (len - pos as usize) < PAGE_IMAGE_SIZE {
            return Err(PageError::ShortRead);
        }
        let at = pos as usize;
        let ghost s = file@.subrange(pos as int, pos + PAGE_IMAGE_SIZE);
        let b = file.as_slice();
        let magic = [b[at], b[at + 1], b[at + 2], b[at + 3], b[at + 4], b[at + 5], b[at + 6]];
        let reserved = b[at + 7];
        let oc = read_le(b, at + 8, 8);
        let cc = read_le(b, at + 16, 8);
        let total = read_le(b, at + 24, 8);
        let pad = read_le(b, at + 32, 8);
        proof {
            assert(file@.subrange(at + 8, at + 16) =~= s.subrange(8, 16));
            assert(file@.subrange(at + 16, at + 24) =~= s.subrange(16, 24));
            assert(file@.subrange(at + 24, at + 32) =~= s.subrange(24, 32));
            assert(file@.subrange(at + 32, at + 40) =~= s.subrange(32, 40));
            assert(magic@ =~= s.subrange(0, 7));
            lemma_le_value_bound(s.subrange(8, 16));
            lemma_le_value_bound(s.subrange(16, 24));
            lemma_le_value_bound(s.subrange(24, 32));
            lemma_pow256_widths();
        }
        let magic_ok = magic[0] == 98 && magic[1] == 116 && magic[2] == 114 && magic[3] == 101
            && magic[4] == 101 && magic[5] == 0 && magic[6] == 0;
        proof {
            if magic_ok {
                assert(magic@ =~= crate::page::magic());
            } else {
                assert(magic@ != crate::page::magic());
            }
        }
        if pad != 0 || !magic_ok || total != PAGE_SIZE as u128 || oc + cc > total || oc % 16 != 0 {
            return Err(PageError::CorruptHeader);
        }
        let body = copy_range(b, at + HEADER_SIZE, at + PAGE_IMAGE_SIZE);
        let header = SlottedHeader {
            magic,
            reserved,
            offset_cursor: oc as u64,
            cell_cursor: cc as u64,
            total_body_size: total as u64,
        };
        let page = SlottedPage { header, body };
        assert(page@.body =~= s.subrange(40, 4136));
        assert(page@.header =~~= image_view(s).header);
        Ok(page)
    }
}

} // verus!
