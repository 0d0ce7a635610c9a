//! Reader for the property files (`.bin`) that describe skins.
//!
//! A property file is a tree of tagged values. Only its strings matter here:
//! they name the textures of a skin. The tree itself is not kept.

use crate::bytes::{le16, le32, read_u16, read_u32};
use crate::codecs::utf8_text;
use crate::text::texts;
use vstd::prelude::*;
use vstd::utf8::{decode_utf8, decode_utf8_encode_utf8, encode_utf8, valid_utf8};

verus! {

/// How deep values may be nested.
pub const MAX_DEPTH: u32 = 32;

/// What reading part of a file gives: the strings met, and where the part
/// ends, if it could be read to its end.
pub struct Scan {
    pub strings: Seq<Seq<char>>,
    pub end: Option<int>,
}

/// What a value of a fixed size takes up, by its type: none, boolean and 8-bit
/// integers, 16-bit integers, 32-bit numbers, 64-bit integers, vectors of two,
/// three and four, 4x4 matrices, colours, hashes, file references, links and
/// flags.
pub open spec fn fixed_size(ty: u8) -> Option<int> {
    if ty == 0x00 {
        Some(0)
    } else if ty == 0x01 || ty == 0x02 || ty == 0x03 || ty == 0x87 {
        Some(1)
    } else if ty == 0x04 || ty == 0x05 {
        Some(2)
    } else if ty == 0x06 || ty == 0x07 || ty == 0x0A || ty == 0x0F || ty == 0x11 || ty == 0x84 {
        Some(4)
    } else if ty == 0x08 || ty == 0x09 || ty == 0x0B || ty == 0x12 {
        Some(8)
    } else if ty == 0x0C {
        Some(12)
    } else if ty == 0x0D {
        Some(16)
    } else if ty == 0x0E {
        Some(64)
    } else {
        None
    }
}

/// Nothing read, and no end.
pub open spec fn broken() -> Scan {
    Scan { strings: Seq::empty(), end: None }
}

/// Nothing read up to `end`, if the file is that long.
pub open spec fn skipped(data: Seq<u8>, end: int) -> Scan {
    if end <= data.len() {
        Scan { strings: Seq::empty(), end: Some(end) }
    } else {
        broken()
    }
}

/// The strings of one scan before those of another.
pub open spec fn after_strings(before: Seq<Seq<char>>, rest: Scan) -> Scan {
    Scan { strings: before + rest.strings, end: rest.end }
}

/// A string: its length in 16 bits, then its bytes. One that is no UTF-8 is
/// passed over.
pub open spec fn string_at(data: Seq<u8>, pos: int) -> Scan {
    let len = le16(data, pos);
    if pos + 2 > data.len() || pos + 2 + len > data.len() {
        broken()
    } else {
        let bytes = data.subrange(pos + 2, pos + 2 + len);
        Scan {
            strings: if valid_utf8(bytes) {
                seq![decode_utf8(bytes)]
            } else {
                Seq::empty()
            },
            end: Some(pos + 2 + len),
        }
    }
}

/// A value of the given type.
pub open spec fn value_at(data: Seq<u8>, ty: u8, pos: int, depth: int) -> Scan
    decreases 36 - depth, 0int,
{
    if depth > MAX_DEPTH {
        broken()
    } else if fixed_size(ty) is Some {
        skipped(data, pos + fixed_size(ty)->0)
    } else if ty == 0x10 {
        string_at(data, pos)
    } else if ty == 0x80 || ty == 0x81 {
        // A list: type of the items, size, count, items.
        if pos + 9 > data.len() {
            broken()
        } else {
            items_at(data, seq![data[pos]], pos + 9, le32(data, pos + 5), depth + 1)
        }
    } else if ty == 0x82 {
        // A pointer: class, and the object unless the class is zero.
        if pos + 4 > data.len() {
            broken()
        } else if le32(data, pos) == 0 {
            skipped(data, pos + 4)
        } else {
            object_at(data, pos + 4, depth + 1)
        }
    } else if ty == 0x83 {
        // An embedded object: class, object.
        if pos + 4 > data.len() {
            broken()
        } else {
            object_at(data, pos + 4, depth + 1)
        }
    } else if ty == 0x85 {
        // An option: type of the value, whether there is one, value.
        if pos + 2 > data.len() {
            broken()
        } else if data[pos + 1] == 0 {
            skipped(data, pos + 2)
        } else {
            value_at(data, data[pos], pos + 2, depth + 1)
        }
    } else if ty == 0x86 {
        // A map: types of key and value, size, count, pairs.
        if pos + 10 > data.len() {
            broken()
        } else {
            items_at(data, seq![data[pos], data[pos + 1]], pos + 10, le32(data, pos + 6), depth + 1)
        }
    } else {
        broken()
    }
}

/// Values of the given types, one after the other.
pub open spec fn row_at(data: Seq<u8>, types: Seq<u8>, pos: int, depth: int) -> Scan
    decreases 36 - depth, 1 + types.len(),
{
    if types.len() == 0 {
        Scan { strings: Seq::empty(), end: Some(pos) }
    } else {
        let first = value_at(data, types[0], pos, depth);
        match first.end {
            None => first,
            Some(next) => after_strings(
                first.strings,
                row_at(data, types.skip(1), next, depth),
            ),
        }
    }
}

/// `count` rows of values of the given types. There are no rows of more than
/// two values.
pub open spec fn items_at(data: Seq<u8>, types: Seq<u8>, pos: int, count: int, depth: int) -> Scan
    decreases 36 - depth, 4 + count,
{
    if count <= 0 || types.len() > 2 {
        Scan { strings: Seq::empty(), end: Some(pos) }
    } else {
        let first = row_at(data, types, pos, depth);
        match first.end {
            None => first,
            Some(next) => after_strings(
                first.strings,
                items_at(data, types, next, count - 1, depth),
            ),
        }
    }
}

/// An object behind its class: size, number of fields, fields.
pub open spec fn object_at(data: Seq<u8>, pos: int, depth: int) -> Scan
    decreases 35 - depth, 0x10000 + 1int,
{
    if pos + 6 > data.len() || depth > MAX_DEPTH + 1 {
        broken()
    } else {
        fields_at(data, pos + 6, le16(data, pos + 4), depth + 1)
    }
}

/// `count` fields: name, type and value of each.
pub open spec fn fields_at(data: Seq<u8>, pos: int, count: int, depth: int) -> Scan
    decreases 36 - depth, 1 + count,
{
    if count <= 0 {
        Scan { strings: Seq::empty(), end: Some(pos) }
    } else if pos + 5 > data.len() {
        broken()
    } else {
        let first = value_at(data, data[pos + 4], pos + 5, depth);
        match first.end {
            None => first,
            Some(next) => after_strings(
                first.strings,
                fields_at(data, next, count - 1, depth),
            ),
        }
    }
}

/// `count` entries: size and class of each, and its fields.
pub open spec fn entries_at(data: Seq<u8>, pos: int, count: int) -> Scan
    decreases count,
{
    if count <= 0 {
        Scan { strings: Seq::empty(), end: Some(pos) }
    } else if pos + 10 > data.len() {
        broken()
    } else {
        let first = fields_at(data, pos + 10, le16(data, pos + 8), 0);
        match first.end {
            None => first,
            Some(next) => after_strings(first.strings, entries_at(data, next, count - 1)),
        }
    }
}

/// Where `count` strings from `pos` on end.
pub open spec fn links_end(data: Seq<u8>, pos: int, count: int) -> Option<int>
    decreases count,
{
    if count <= 0 {
        Some(pos)
    } else {
        match string_at(data, pos).end {
            None => None,
            Some(next) => links_end(data, next, count - 1),
        }
    }
}

/// Where the number of entries stands: behind the magic number, the version
/// and, from version 2 on, the linked files.
pub open spec fn entries_start(data: Seq<u8>) -> Option<int> {
    if data.len() < 8 || data.take(4) != seq![0x50u8, 0x52u8, 0x4Fu8, 0x50u8] {
        None
    } else if le32(data, 4) < 2 {
        Some(8)
    } else if data.len() < 12 {
        None
    } else {
        links_end(data, 12, le32(data, 8))
    }
}

/// The strings of a property file; none where the file cannot be read to its
/// end.
pub open spec fn strings_of(data: Seq<u8>) -> Seq<Seq<char>> {
    match entries_start(data) {
        None => Seq::empty(),
        Some(pos) => if pos + 4 > data.len() || pos + 4 + 4 * le32(data, pos) > data.len() {
            Seq::empty()
        } else {
            let all = entries_at(data, pos + 4 + 4 * le32(data, pos), le32(data, pos));
            match all.end {
                Some(_) => all.strings,
                None => Seq::empty(),
            }
        },
    }
}

/// A position in a file.
pub struct Reader<'a> {
    pub data: &'a [u8],
    pub pos: usize,
}

impl<'a> Reader<'a> {
    /// The position is in the file, or at its end.
    pub open spec fn wf(&self) -> bool {
        self.pos <= self.data@.len()
    }

    /// Whether `n` bytes are left.
    fn has(&self, n: usize) -> (r: bool)
        requires
            self.wf(),
        ensures
            r == (self.pos + n <= self.data@.len()),
            self.data@.len() <= usize::MAX,
    {
        n <= self.data.len() - self.pos
    }

    fn skip(&mut self, n: usize) -> (r: bool)
        requires
            old(self).wf(),
        ensures
            final(self).wf(),
            final(self).data == old(self).data,
            r == (old(self).pos + n <= old(self).data@.len()),
            r ==> final(self).pos == old(self).pos + n,
            !r ==> final(self).pos == old(self).pos,
    {
        if self.has(n) {
            self.pos = self.pos + n;
            true
        } else {
            false
        }
    }
}

/// Whether what was read from `before` to `after` is the scan `s`. Whether or
/// not it could be read to its end, the position does not go back or past the
/// end of the file, and the strings that were there stay.
pub open spec fn is_scan(
    before: Reader,
    after: Reader,
    old_out: Seq<String>,
    out: Seq<String>,
    ok: bool,
    s: Scan,
) -> bool {
    &&& after.wf()
    &&& after.data == before.data
    &&& before.pos <= after.pos
    &&& old_out.is_prefix_of(out)
    &&& texts(out) == texts(old_out) + s.strings
    &&& ok == (s.end is Some)
    &&& ok ==> after.pos == s.end->0
}

fn size_of_fixed(ty: u8) -> (r: Option<usize>)
    ensures
        match r {
            Some(n) => fixed_size(ty) == Some(n as int),
            None => fixed_size(ty) is None,
        },
{
    match ty {
        0x00 => Some(0),
        0x01 | 0x02 | 0x03 | 0x87 => Some(1),
        0x04 | 0x05 => Some(2),
        0x06 | 0x07 | 0x0A | 0x0F | 0x11 | 0x84 => Some(4),
        0x08 | 0x09 | 0x0B | 0x12 => Some(8),
        0x0C => Some(12),
        0x0D => Some(16),
        0x0E => Some(64),
        _ => None,
    }
}

proof fn lemma_no_strings(before: Seq<String>)
    ensures
        texts(before) + Seq::<Seq<char>>::empty() == texts(before),
{
    assert(texts(before) + Seq::<Seq<char>>::empty() =~= texts(before));
}

/// Reads a string, and adds it to `out`.
fn read_string(r: &mut Reader, out: &mut Vec<String>) -> (ok: bool)
    requires
        old(r).wf(),
    ensures
        is_scan(
            *old(r),
            *final(r),
            old(out)@,
            final(out)@,
            ok,
            string_at(old(r).data@, old(r).pos as int),
        ),
{
    proof {
        lemma_no_strings(out@);
    }
    if !r.has(2) {
        return false;
    }
    let len: usize = read_u16(r.data, r.pos) as usize;
    if len > r.data.len() - r.pos - 2 {
        return false;
    }
    let start: usize = r.pos + 2;
    let bytes = vstd::slice::slice_subrange(r.data, start, start + len);
    r.pos = start + len;
    if let Some(s) = utf8_text(bytes) {
        let ghost before = out@;
        out.push(s);
        assert(texts(out@) =~= texts(before) + seq![s@]);
    }
    true
}

/// Reads a value of the given type, and adds its strings to `out`. Returns
/// whether it could be read to its end. One that is nested too deep is not
/// read at all.
pub fn read_value(r: &mut Reader, ty: u8, out: &mut Vec<String>, depth: u32) -> (ok: bool)
    requires
        old(r).wf(),
    ensures
        is_scan(
            *old(r),
            *final(r),
            old(out)@,
            final(out)@,
            ok,
            value_at(old(r).data@, ty, old(r).pos as int, depth as int),
        ),
        depth > MAX_DEPTH ==> !ok && *final(r) == *old(r) && final(out)@ == old(out)@,
    decreases 36 - depth, 0int,
{
    proof {
        lemma_no_strings(out@);
    }
    if depth > MAX_DEPTH {
        return false;
    }
    if let Some(n) = size_of_fixed(ty) {
        return r.skip(n);
    }
    if ty == 0x10 {
        read_string(r, out)
    } else if ty == 0x80 || ty == 0x81 {
        if !r.has(9) {
            return false;
        }
        let elem: u8 = r.data[r.pos];
        let count: u32 = read_u32(r.data, r.pos + 5);
        r.pos = r.pos + 9;
        let types: Vec<u8> = vec![elem];
        assert(types@ =~= seq![elem]);
        read_items(r, &types, count, out, depth + 1)
    } else if ty == 0x82 {
        if !r.has(4) {
            return false;
        }
        let class: u32 = read_u32(r.data, r.pos);
        r.pos = r.pos + 4;
        if class == 0 {
            return true;
        }
        read_object(r, out, depth + 1)
    } else if ty == 0x83 {
        if !r.has(4) {
            return false;
        }
        r.pos = r.pos + 4;
        read_object(r, out, depth + 1)
    } else if ty == 0x85 {
        if !r.has(2) {
            return false;
        }
        let elem: u8 = r.data[r.pos];
        let has: u8 = r.data[r.pos + 1];
        r.pos = r.pos + 2;
        if has == 0 {
            return true;
        }
        read_value(r, elem, out, depth + 1)
    } else if ty == 0x86 {
        if !r.has(10) {
            return false;
        }
        let key: u8 = r.data[r.pos];
        let value: u8 = r.data[r.pos + 1];
        let count: u32 = read_u32(r.data, r.pos + 6);
        r.pos = r.pos + 10;
        let types: Vec<u8> = vec![key, value];
        assert(types@ =~= seq![key, value]);
        read_items(r, &types, count, out, depth + 1)
    } else {
        false
    }
}

/// Reads values of the given types, from the one at `i` on.
fn read_row(r: &mut Reader, types: &Vec<u8>, i: usize, out: &mut Vec<String>, depth: u32) -> (ok:
    bool)
    requires
        old(r).wf(),
        i <= types@.len(),
    ensures
        is_scan(
            *old(r),
            *final(r),
            old(out)@,
            final(out)@,
            ok,
            row_at(old(r).data@, types@.skip(i as int), old(r).pos as int, depth as int),
        ),
    decreases 36 - depth, 1 + types@.len() - i,
{
    let ghost left = types@.skip(i as int);
    proof {
        lemma_no_strings(out@);
    }
    if i >= types.len() {
        return true;
    }
    assert(left[0] == types@[i as int]);
    assert(left.skip(1) =~= types@.skip(i + 1));
    let ghost before = texts(out@);
    let ghost first = value_at(r.data@, left[0], r.pos as int, depth as int);
    if !read_value(r, types[i], out, depth) {
        return false;
    }
    let ghost rest = row_at(r.data@, left.skip(1), r.pos as int, depth as int);
    let ok = read_row(r, types, i + 1, out, depth);
    assert((before + first.strings) + rest.strings =~= before + (first.strings + rest.strings));
    ok
}

/// Reads `count` rows of values of the given types.
fn read_items(
    r: &mut Reader,
    types: &Vec<u8>,
    count: u32,
    out: &mut Vec<String>,
    depth: u32,
) -> (ok: bool)
    requires
        old(r).wf(),
        types@.len() <= 2,
    ensures
        is_scan(
            *old(r),
            *final(r),
            old(out)@,
            final(out)@,
            ok,
            items_at(old(r).data@, types@, old(r).pos as int, count as int, depth as int),
        ),
    decreases 36 - depth, 4 + count,
{
    let ghost r0 = *r;
    let ghost out0 = out@;
    let ghost data = r.data@;
    let ghost all = items_at(data, types@, r.pos as int, count as int, depth as int);
    let ghost mut done = Seq::<Seq<char>>::empty();
    let mut left: u32 = count;
    proof {
        lemma_no_strings(out@);
        assert(done + all.strings =~= all.strings);
    }
    while left > 0
        invariant
            r.wf(),
            r.data == r0.data,
            r0.pos <= r.pos,
            out0.is_prefix_of(out@),
            r0.wf(),
            data == r0.data@,
            types@.len() <= 2,
            left <= count,
            texts(out@) == texts(out0) + done,
            all == after_strings(
                done,
                items_at(data, types@, r.pos as int, left as int, depth as int),
            ),
            all == items_at(data, types@, r0.pos as int, count as int, depth as int),
            r0 == *old(r),
            out0 == old(out)@,
        decreases left,
    {
        assert(types@.skip(0) =~= types@);
        let ghost first = row_at(data, types@, r.pos as int, depth as int);
        let ghost rest = items_at(data, types@, r.pos as int, left as int, depth as int);
        if !read_row(r, types, 0, out, depth) {
            assert((texts(out0) + done) + first.strings =~= texts(out0) + all.strings);
            return false;
        }
        left = left - 1;
        proof {
            let next = items_at(data, types@, r.pos as int, left as int, depth as int);
            assert((texts(out0) + done) + first.strings =~= texts(out0) + (done + first.strings));
            assert((done + first.strings) + next.strings =~= done + (first.strings + next.strings));
            done = done + first.strings;
        }
    }
    assert(done + Seq::<Seq<char>>::empty() =~= done);
    true
}

/// Reads an object behind its class.
fn read_object(r: &mut Reader, out: &mut Vec<String>, depth: u32) -> (ok: bool)
    requires
        old(r).wf(),
        1 <= depth <= MAX_DEPTH + 1,
    ensures
        is_scan(
            *old(r),
            *final(r),
            old(out)@,
            final(out)@,
            ok,
            object_at(old(r).data@, old(r).pos as int, depth as int),
        ),
    decreases 35 - depth, 0x10000 + 1int,
{
    proof {
        lemma_no_strings(out@);
    }
    if !r.has(6) {
        return false;
    }
    let count: u16 = read_u16(r.data, r.pos + 4);
    r.pos = r.pos + 6;
    read_fields(r, count, out, depth + 1)
}

/// Reads `count` fields.
fn read_fields(r: &mut Reader, count: u16, out: &mut Vec<String>, depth: u32) -> (ok: bool)
    requires
        old(r).wf(),
    ensures
        is_scan(
            *old(r),
            *final(r),
            old(out)@,
            final(out)@,
            ok,
            fields_at(old(r).data@, old(r).pos as int, count as int, depth as int),
        ),
    decreases 36 - depth, 1 + count,
{
    let ghost r0 = *r;
    let ghost out0 = out@;
    let ghost data = r.data@;
    let ghost all = fields_at(data, r.pos as int, count as int, depth as int);
    let ghost mut done = Seq::<Seq<char>>::empty();
    let mut left: u16 = count;
    proof {
        lemma_no_strings(out@);
        assert(done + all.strings =~= all.strings);
    }
    while left > 0
        invariant
            r.wf(),
            r.data == r0.data,
            r0.pos <= r.pos,
            out0.is_prefix_of(out@),
            r0.wf(),
            data == r0.data@,
            left <= count,
            texts(out@) == texts(out0) + done,
            all == after_strings(done, fields_at(data, r.pos as int, left as int, depth as int)),
            all == fields_at(data, r0.pos as int, count as int, depth as int),
            r0 == *old(r),
            out0 == old(out)@,
        decreases left,
    {
        if !r.has(5) {
            assert(done + Seq::<Seq<char>>::empty() =~= done);
            return false;
        }
        let ty: u8 = r.data[r.pos + 4];
        r.pos = r.pos + 5;
        let ghost first = value_at(data, ty, r.pos as int, depth as int);
        if !read_value(r, ty, out, depth) {
            assert((texts(out0) + done) + first.strings =~= texts(out0) + all.strings);
            return false;
        }
        left = left - 1;
        proof {
            let next = fields_at(data, r.pos as int, left as int, depth as int);
            assert((texts(out0) + done) + first.strings =~= texts(out0) + (done + first.strings));
            assert((done + first.strings) + next.strings =~= done + (first.strings + next.strings));
            done = done + first.strings;
        }
    }
    assert(done + Seq::<Seq<char>>::empty() =~= done);
    true
}

/// Passes over the strings that name linked files.
fn skip_links(r: &mut Reader, count: u32) -> (ok: bool)
    requires
        old(r).wf(),
    ensures
        final(r).wf(),
        final(r).data == old(r).data,
        match links_end(old(r).data@, old(r).pos as int, count as int) {
            Some(end) => ok && final(r).pos == end,
            None => !ok,
        },
{
    let ghost r0 = *r;
    let mut left: u32 = count;
    while left > 0
        invariant
            r.wf(),
            r.data == r0.data,
            links_end(r0.data@, r0.pos as int, count as int) == links_end(
                r0.data@,
                r.pos as int,
                left as int,
            ),
            r0 == *old(r),
        decreases left,
    {
        if !r.has(2) {
            return false;
        }
        let len: usize = read_u16(r.data, r.pos) as usize;
        if len > r.data.len() - r.pos - 2 {
            return false;
        }
        r.pos = r.pos + 2 + len;
        left = left - 1;
    }
    true
}

/// Reads `count` entries.
fn read_entries(r: &mut Reader, count: u32, out: &mut Vec<String>) -> (ok: bool)
    requires
        old(r).wf(),
    ensures
        is_scan(
            *old(r),
            *final(r),
            old(out)@,
            final(out)@,
            ok,
            entries_at(old(r).data@, old(r).pos as int, count as int),
        ),
{
    let ghost r0 = *r;
    let ghost out0 = out@;
    let ghost data = r.data@;
    let ghost all = entries_at(data, r.pos as int, count as int);
    let ghost mut done = Seq::<Seq<char>>::empty();
    let mut left: u32 = count;
    proof {
        lemma_no_strings(out@);
        assert(done + all.strings =~= all.strings);
    }
    while left > 0
        invariant
            r.wf(),
            r.data == r0.data,
            r0.pos <= r.pos,
            out0.is_prefix_of(out@),
            r0.wf(),
            data == r0.data@,
            left <= count,
            texts(out@) == texts(out0) + done,
            all == after_strings(done, entries_at(data, r.pos as int, left as int)),
            all == entries_at(data, r0.pos as int, count as int),
            r0 == *old(r),
            out0 == old(out)@,
        decreases left,
    {
        if !r.has(10) {
            assert(done + Seq::<Seq<char>>::empty() =~= done);
            return false;
        }
        let fields: u16 = read_u16(r.data, r.pos + 8);
        r.pos = r.pos + 10;
        let ghost first = fields_at(data, r.pos as int, fields as int, 0);
        if !read_fields(r, fields, out, 0) {
            assert((texts(out0) + done) + first.strings =~= texts(out0) + all.strings);
            return false;
        }
        left = left - 1;
        proof {
            let next = entries_at(data, r.pos as int, left as int);
            assert((texts(out0) + done) + first.strings =~= texts(out0) + (done + first.strings));
            assert((done + first.strings) + next.strings =~= done + (first.strings + next.strings));
            done = done + first.strings;
        }
    }
    assert(done + Seq::<Seq<char>>::empty() =~= done);
    true
}

/// All strings of a property file, in their order; none where the file is no
/// property file or cannot be read to its end.
pub fn collect_strings(data: &[u8]) -> (r: Vec<String>)
    ensures
        texts(r@) == strings_of(data@),
{
    let mut out: Vec<String> = Vec::new();
    assert(texts(out@) =~= Seq::<Seq<char>>::empty());
    if data.len() < 8 {
        return out;
    }
    if data[0] != 0x50 || data[1] != 0x52 || data[2] != 0x4F || data[3] != 0x50 {
        proof {
            if data@.take(4) == seq![0x50u8, 0x52u8, 0x4Fu8, 0x50u8] {
                assert(data@.take(4)[0] == data@[0] && data@.take(4)[1] == data@[1]);
                assert(data@.take(4)[2] == data@[2] && data@.take(4)[3] == data@[3]);
            }
        }
        return out;
    }
    assert(data@.take(4) =~= seq![0x50u8, 0x52u8, 0x4Fu8, 0x50u8]);
    let mut r = Reader { data, pos: 8 };
    if read_u32(data, 4) >= 2 {
        if !r.has(4) {
            return out;
        }
        let links: u32 = read_u32(data, 8);
        r.pos = 12;
        if !skip_links(&mut r, links) {
            return out;
        }
    }
    if !r.has(4) {
        return out;
    }
    let count: u32 = read_u32(data, r.pos);
    r.pos = r.pos + 4;
    if (data.len() - r.pos) / 4 < count as usize {
        return out;
    }
    r.pos = r.pos + 4 * count as usize;
    if !read_entries(&mut r, count, &mut out) {
        let none: Vec<String> = Vec::new();
        assert(texts(none@) =~= strings_of(data@));
        return none;
    }
    assert(texts(out@) =~= strings_of(data@));
    out
}

/// Whether the bytes of a string stand somewhere in the file.
pub open spec fn stands_in(data: Seq<u8>, s: Seq<char>) -> bool {
    exists|from: int, to: int|
        0 <= from <= to <= data.len() && #[trigger] data.subrange(from, to) == encode_utf8(s)
}

/// Whether the bytes of all strings stand in the file.
pub open spec fn all_stand_in(data: Seq<u8>, strings: Seq<Seq<char>>) -> bool {
    forall|i: int| 0 <= i < strings.len() ==> stands_in(data, #[trigger] strings[i])
}

proof fn lemma_joined(data: Seq<u8>, a: Seq<Seq<char>>, b: Seq<Seq<char>>)
    requires
        all_stand_in(data, a),
        all_stand_in(data, b),
    ensures
        all_stand_in(data, a + b),
{
    assert forall|i: int| 0 <= i < (a + b).len() implies stands_in(
        data,
        #[trigger] (a + b)[i],
    ) by {
        if i < a.len() {
            assert((a + b)[i] == a[i]);
        } else {
            assert((a + b)[i] == b[i - a.len()]);
        }
    }
}

/// Whether `end` does not lie before `pos`, nor behind the end of the file where
/// `pos` does not.
spec fn ends_within(data: Seq<u8>, pos: int, end: int) -> bool {
    pos <= end && (pos <= data.len() ==> end <= data.len())
}

proof fn lemma_string_stands(data: Seq<u8>, pos: int)
    requires
        0 <= pos,
    ensures
        all_stand_in(data, string_at(data, pos).strings),
        string_at(data, pos).end matches Some(e) ==> ends_within(data, pos, e),
{
    let len = le16(data, pos);
    if pos + 2 <= data.len() && pos + 2 + len <= data.len() {
        let bytes = data.subrange(pos + 2, pos + 2 + len);
        if valid_utf8(bytes) {
            decode_utf8_encode_utf8(bytes);
            assert(stands_in(data, decode_utf8(bytes)));
        }
    }
}

proof fn lemma_value_stands(data: Seq<u8>, ty: u8, pos: int, depth: int)
    requires
        0 <= pos,
        0 <= depth <= MAX_DEPTH + 2,
    ensures
        all_stand_in(data, value_at(data, ty, pos, depth).strings),
        value_at(data, ty, pos, depth).end matches Some(e) ==> ends_within(data, pos, e),
    decreases 36 - depth, 0int,
{
    if depth > MAX_DEPTH || fixed_size(ty) is Some {
    } else if ty == 0x10 {
        lemma_string_stands(data, pos);
    } else if (ty == 0x80 || ty == 0x81) && pos + 9 <= data.len() {
        lemma_items_stand(data, seq![data[pos]], pos + 9, le32(data, pos + 5), depth + 1);
    } else if (ty == 0x82 || ty == 0x83) && pos + 4 <= data.len() {
        lemma_object_stands(data, pos + 4, depth + 1);
    } else if ty == 0x85 && pos + 2 <= data.len() {
        lemma_value_stands(data, data[pos], pos + 2, depth + 1);
    } else if ty == 0x86 && pos + 10 <= data.len() {
        lemma_items_stand(
            data,
            seq![data[pos], data[pos + 1]],
            pos + 10,
            le32(data, pos + 6),
            depth + 1,
        );
    }
}

proof fn lemma_row_stands(data: Seq<u8>, types: Seq<u8>, pos: int, depth: int)
    requires
        0 <= pos,
        0 <= depth <= MAX_DEPTH + 2,
    ensures
        all_stand_in(data, row_at(data, types, pos, depth).strings),
        row_at(data, types, pos, depth).end matches Some(e) ==> ends_within(data, pos, e),
    decreases 36 - depth, 1 + types.len(),
{
    if types.len() > 0 {
        let first = value_at(data, types[0], pos, depth);
        lemma_value_stands(data, types[0], pos, depth);
        if let Some(next) = first.end {
            lemma_row_stands(data, types.skip(1), next, depth);
            lemma_joined(data, first.strings, row_at(data, types.skip(1), next, depth).strings);
        }
    }
}

proof fn lemma_items_stand(data: Seq<u8>, types: Seq<u8>, pos: int, count: int, depth: int)
    requires
        0 <= pos,
        0 <= depth <= MAX_DEPTH + 2,
    ensures
        all_stand_in(data, items_at(data, types, pos, count, depth).strings),
        items_at(data, types, pos, count, depth).end matches Some(e) ==> ends_within(data, pos, e),
    decreases 36 - depth, 4 + count,
{
    if count > 0 && types.len() <= 2 {
        let first = row_at(data, types, pos, depth);
        lemma_row_stands(data, types, pos, depth);
        if let Some(next) = first.end {
            lemma_items_stand(data, types, next, count - 1, depth);
            lemma_joined(
                data,
                first.strings,
                items_at(data, types, next, count - 1, depth).strings,
            );
        }
    }
}

proof fn lemma_object_stands(data: Seq<u8>, pos: int, depth: int)
    requires
        0 <= pos,
        1 <= depth <= MAX_DEPTH + 1,
    ensures
        all_stand_in(data, object_at(data, pos, depth).strings),
        object_at(data, pos, depth).end matches Some(e) ==> ends_within(data, pos, e),
    decreases 35 - depth, 0x10000 + 1int,
{
    if pos + 6 <= data.len() {
        lemma_fields_stand(data, pos + 6, le16(data, pos + 4), depth + 1);
    }
}

proof fn lemma_fields_stand(data: Seq<u8>, pos: int, count: int, depth: int)
    requires
        0 <= pos,
        0 <= depth <= MAX_DEPTH + 2,
        count <= 0xFFFF,
    ensures
        all_stand_in(data, fields_at(data, pos, count, depth).strings),
        fields_at(data, pos, count, depth).end matches Some(e) ==> ends_within(data, pos, e),
    decreases 36 - depth, 1 + count,
{
    if count > 0 && pos + 5 <= data.len() {
        let first = value_at(data, data[pos + 4], pos + 5, depth);
        lemma_value_stands(data, data[pos + 4], pos + 5, depth);
        if let Some(next) = first.end {
            lemma_fields_stand(data, next, count - 1, depth);
            lemma_joined(
                data,
                first.strings,
                fields_at(data, next, count - 1, depth).strings,
            );
        }
    }
}

proof fn lemma_entries_stand(data: Seq<u8>, pos: int, count: int)
    requires
        0 <= pos,
    ensures
        all_stand_in(data, entries_at(data, pos, count).strings),
    decreases count,
{
    if count > 0 && pos + 10 <= data.len() {
        let first = fields_at(data, pos + 10, le16(data, pos + 8), 0);
        lemma_fields_stand(data, pos + 10, le16(data, pos + 8), 0);
        if let Some(next) = first.end {
            lemma_entries_stand(data, next, count - 1);
            lemma_joined(data, first.strings, entries_at(data, next, count - 1).strings);
        }
    }
}

proof fn lemma_links_end(data: Seq<u8>, pos: int, count: int)
    requires
        0 <= pos,
    ensures
        links_end(data, pos, count) matches Some(e) ==> pos <= e,
    decreases count,
{
    if count > 0 {
        lemma_string_stands(data, pos);
        if let Some(next) = string_at(data, pos).end {
            lemma_links_end(data, next, count - 1);
        }
    }
}

/// A value that can be read ends behind where it starts, and within the file.
/// One that is nested too deep is not read at all.
pub proof fn law_value_ends(data: Seq<u8>, ty: u8, pos: int, depth: int)
    requires
        0 <= pos <= data.len(),
        0 <= depth,
    ensures
        value_at(data, ty, pos, depth).end matches Some(e) ==> pos <= e <= data.len(),
        depth > MAX_DEPTH ==> value_at(data, ty, pos, depth) == broken(),
{
    if depth <= MAX_DEPTH {
        lemma_value_stands(data, ty, pos, depth);
    }
}

/// Every string that is collected stands in the file.
pub proof fn law_strings_stand_in_file(data: Seq<u8>)
    ensures
        all_stand_in(data, strings_of(data)),
{
    if let Some(pos) = entries_start(data) {
        if data.len() >= 12 {
            lemma_links_end(data, 12, le32(data, 8));
        }
        lemma_entries_stand(data, pos + 4 + 4 * le32(data, pos), le32(data, pos));
    }
}

} // verus!
