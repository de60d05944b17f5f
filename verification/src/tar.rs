//! The archive: a stream of 512-byte blocks in the ustar layout, one header
//! block and the padded payload per entry, closed by two blocks of zeros.
//!
//! The writer is append-only and keeps nothing but the bytes that the caller
//! has not yet taken, so an archive never has to fit in memory.

use crate::bytes::{
    append, byte_sum, lemma_byte_sum_bound, lemma_byte_sum_concat, lemma_byte_sum_constant,
    push_zeros, sum, zeros,
};
use crate::radix::{
    digits, lemma_digits_monotonic, lemma_number_of_zero_padded, number, push_zero_padded,
    zero_padded,
};
use vstd::prelude::*;

verus! {

/// The size of a block: every header and every padded payload is a multiple of it.
pub const BLOCK_SIZE: usize = 512;

/// The longest entry name that the header's name field holds.
pub const NAME_LIMIT: usize = 100;

/// The first payload size that the header's size field, eleven octal digits, cannot hold.
pub const SIZE_LIMIT: u64 = 0o100_000_000_000;

/// Where the checksum field starts in a header.
pub const CHECKSUM_OFFSET: usize = 148;

/// The permission bits that every entry gets: readable by all, written as `0000444`.
pub const MODE: u64 = 0o444;

/// One file in the archive: its name and its payload.
pub struct Entry {
    pub name: Seq<u8>,
    pub content: Seq<u8>,
}

/// A numeric header field: `value` in octal, `width` digits, then a NUL.
pub open spec fn octal_field(value: nat, width: nat) -> Seq<u8> {
    zero_padded(value, 8, width).push(0u8)
}

/// The header up to the checksum field, bytes 0 to 147: the name filled up
/// with NULs to 100 bytes, then mode, owner, group, size and modification time.
/// Owner, group and modification time are always zero.
pub open spec fn header_front(name: Seq<u8>, size: nat) -> Seq<u8> {
    name + zeros((NAME_LIMIT - name.len()) as nat) + octal_field(MODE as nat, 7) + octal_field(0, 7)
        + octal_field(0, 7) + octal_field(size, 11) + octal_field(0, 11)
}

/// The header after the checksum field, bytes 156 to 511: the type flag `0` of
/// a regular file, an empty link name, `ustar`, a NUL, the version `00`, and
/// zeros to the end of the block.
pub open spec fn header_back() -> Seq<u8> {
    seq![48u8] + zeros(100) + seq![117u8, 115u8, 116u8, 97u8, 114u8, 0u8] + seq![48u8, 48u8]
        + zeros(247)
}

/// The checksum field while the checksum is being computed: eight spaces.
pub open spec fn blank_checksum() -> Seq<u8> {
    Seq::new(8, |i: int| 32u8)
}

/// The checksum field of a finished header: six octal digits, a NUL, a space.
pub open spec fn checksum_field(checksum: nat) -> Seq<u8> {
    zero_padded(checksum, 8, 6).push(0u8).push(32u8)
}

/// A header with a given checksum field.
pub open spec fn header_with(name: Seq<u8>, size: nat, field: Seq<u8>) -> Seq<u8> {
    header_front(name, size) + field + header_back()
}

/// The checksum of a header: the sum of its bytes with the checksum field blank.
pub open spec fn header_checksum(name: Seq<u8>, size: nat) -> nat {
    byte_sum(header_with(name, size, blank_checksum()))
}

/// The header block of an entry called `name` with a payload of `size` bytes.
pub open spec fn header(name: Seq<u8>, size: nat) -> Seq<u8> {
    header_with(name, size, checksum_field(header_checksum(name, size)))
}

/// A header block with its checksum field overwritten by spaces.
pub open spec fn blanked(block: Seq<u8>) -> Seq<u8> {
    block.subrange(0, CHECKSUM_OFFSET as int) + blank_checksum() + block.subrange(
        CHECKSUM_OFFSET + 8,
        block.len() as int,
    )
}

/// How many zero bytes follow a payload of `size` bytes to fill its last block.
pub open spec fn padding_len(size: nat) -> nat {
    ((BLOCK_SIZE - size % (BLOCK_SIZE as nat)) % (BLOCK_SIZE as int)) as nat
}

/// The bytes of one entry: header, payload, padding.
pub open spec fn entry_bytes(entry: Entry) -> Seq<u8> {
    header(entry.name, entry.content.len()) + entry.content + zeros(
        padding_len(entry.content.len()),
    )
}

/// The bytes of the entries, one after the other in their order.
pub open spec fn archive_bytes(entries: Seq<Entry>) -> Seq<u8>
    decreases entries.len(),
{
    if entries.len() == 0 {
        Seq::empty()
    } else {
        archive_bytes(entries.drop_last()) + entry_bytes(entries.last())
    }
}

/// What closes an archive: two blocks of zeros.
pub open spec fn end_marker() -> Seq<u8> {
    zeros(2 * BLOCK_SIZE as nat)
}

/// Whether an entry fits the header's fields.
pub open spec fn entry_fits(entry: Entry) -> bool {
    entry.name.len() <= NAME_LIMIT && entry.content.len() < SIZE_LIMIT
}

/// An octal field of `width` digits is `width + 1` bytes long when the value
/// has no more than `width` digits.
proof fn lemma_octal_field_len(value: nat, limit: nat, width: nat)
    requires
        value <= limit,
        digits(limit, 8).len() <= width,
    ensures
        octal_field(value, width).len() == width + 1,
        zero_padded(value, 8, width).len() == width,
{
    lemma_digits_monotonic(value, limit, 8);
}

proof fn lemma_digits_of_limits()
    ensures
        digits(0, 8).len() == 1,
        digits(MODE as nat, 8).len() == 3,
        digits((SIZE_LIMIT - 1) as nat, 8).len() == 11,
        digits(0o777_777, 8).len() == 6,
{
    reveal_with_fuel(digits, 12);
}

/// The parts of a header have their places: the front is 148 bytes, the
/// checksum field 8, the back 356, and the checksum has at most six digits.
pub proof fn lemma_header_layout(name: Seq<u8>, size: nat)
    requires
        name.len() <= NAME_LIMIT,
        size < SIZE_LIMIT,
    ensures
        header_front(name, size).len() == CHECKSUM_OFFSET,
        header_back().len() == BLOCK_SIZE - CHECKSUM_OFFSET - 8,
        header_checksum(name, size) <= 255 * BLOCK_SIZE,
        zero_padded(header_checksum(name, size), 8, 6).len() == 6,
        checksum_field(header_checksum(name, size)).len() == 8,
        header(name, size).len() == BLOCK_SIZE,
{
    lemma_digits_of_limits();
    lemma_octal_field_len(MODE as nat, MODE as nat, 7);
    lemma_octal_field_len(0, 0, 7);
    lemma_octal_field_len(size, (SIZE_LIMIT - 1) as nat, 11);
    lemma_octal_field_len(0, 0, 11);
    let blank = header_with(name, size, blank_checksum());
    assert(blank.len() == BLOCK_SIZE);
    lemma_byte_sum_bound(blank);
    lemma_octal_field_len(header_checksum(name, size), 0o777_777, 6);
}

/// The stored checksum of every header is right: the six octal digits at
/// offset 148, followed by a NUL and a space, denote the sum of the 512 header
/// bytes taken with the checksum field blank.
pub proof fn lemma_checksum_matches(name: Seq<u8>, size: nat)
    requires
        name.len() <= NAME_LIMIT,
        size < SIZE_LIMIT,
    ensures
        ({
            let block = header(name, size);
            &&& block.len() == BLOCK_SIZE
            &&& number(block.subrange(CHECKSUM_OFFSET as int, CHECKSUM_OFFSET + 6), 8) == byte_sum(
                blanked(block),
            )
            &&& block[CHECKSUM_OFFSET + 6] == 0u8
            &&& block[CHECKSUM_OFFSET + 7] == 32u8
        }),
{
    lemma_header_layout(name, size);
    let checksum = header_checksum(name, size);
    let block = header(name, size);
    assert(block.subrange(CHECKSUM_OFFSET as int, CHECKSUM_OFFSET + 6) =~= zero_padded(
        checksum,
        8,
        6,
    ));
    assert(blanked(block) =~= header_with(name, size, blank_checksum()));
    lemma_number_of_zero_padded(checksum, 8, 6);
}

/// A header block is never all zeros: it cannot be taken for the end marker.
pub proof fn lemma_header_not_blank(name: Seq<u8>, size: nat)
    requires
        name.len() <= NAME_LIMIT,
        size < SIZE_LIMIT,
    ensures
        header(name, size) != zeros(BLOCK_SIZE as nat),
{
    lemma_header_layout(name, size);
    let block = header(name, size);
    assert(block[156] == 48u8);
    assert(zeros(BLOCK_SIZE as nat)[156] == 0u8);
}

/// The header block of an entry called `name` with a payload of `size` bytes.
pub fn build_header(name: &[u8], size: u64) -> (block: Vec<u8>)
    requires
        name@.len() <= NAME_LIMIT,
        size < SIZE_LIMIT,
    ensures
        block@ == header(name@, size as nat),
        block@.len() == BLOCK_SIZE,
{
    proof {
        lemma_header_layout(name@, size as nat);
    }
    let mut front: Vec<u8> = Vec::new();
    append(&mut front, name);
    push_zeros(&mut front, NAME_LIMIT - name.len());
    push_zero_padded(&mut front, MODE, 8, 7);
    front.push(0u8);
    push_zero_padded(&mut front, 0, 8, 7);
    front.push(0u8);
    push_zero_padded(&mut front, 0, 8, 7);
    front.push(0u8);
    push_zero_padded(&mut front, size, 8, 11);
    front.push(0u8);
    push_zero_padded(&mut front, 0, 8, 11);
    front.push(0u8);
    assert(front@ =~= header_front(name@, size as nat));

    let mut back: Vec<u8> = Vec::new();
    back.push(48u8);
    push_zeros(&mut back, 100);
    back.push(117u8);
    back.push(115u8);
    back.push(116u8);
    back.push(97u8);
    back.push(114u8);
    back.push(0u8);
    back.push(48u8);
    back.push(48u8);
    push_zeros(&mut back, 247);
    assert(back@ =~= header_back());

    let checksum: u32 = sum(front.as_slice()) + 8 * 32 + sum(back.as_slice());
    proof {
        lemma_byte_sum_concat(front@ + blank_checksum(), back@);
        lemma_byte_sum_concat(front@, blank_checksum());
        lemma_byte_sum_constant(8, 32u8);
        assert(checksum == header_checksum(name@, size as nat));
    }
    let mut block = front;
    push_zero_padded(&mut block, checksum as u64, 8, 6);
    block.push(0u8);
    block.push(32u8);
    append(&mut block, back.as_slice());
    assert(block@ =~= header(name@, size as nat));
    block
}

/// Every entry takes a whole number of blocks, and at least one.
pub proof fn lemma_entry_is_blocks(entry: Entry)
    requires
        entry_fits(entry),
    ensures
        entry_bytes(entry).len() == BLOCK_SIZE + entry.content.len() + padding_len(
            entry.content.len(),
        ),
        entry_bytes(entry).len() % (BLOCK_SIZE as nat) == 0,
        (entry.content.len() + padding_len(entry.content.len())) % (BLOCK_SIZE as nat) == 0,
        padding_len(entry.content.len()) < BLOCK_SIZE,
{
    lemma_header_layout(entry.name, entry.content.len());
}

/// An entry holds its parts in their places: the header in the first block,
/// then the payload, byte for byte as it was handed in, then nothing but
/// zeros up to the end of the last block.
pub proof fn lemma_entry_parts(entry: Entry)
    requires
        entry_fits(entry),
    ensures
        ({
            let bytes = entry_bytes(entry);
            let size = entry.content.len() as int;
            &&& bytes.subrange(0, BLOCK_SIZE as int) == header(entry.name, entry.content.len())
            &&& bytes.subrange(BLOCK_SIZE as int, BLOCK_SIZE + size) == entry.content
            &&& forall|i: int| BLOCK_SIZE + size <= i < bytes.len() ==> bytes[i] == 0u8
        }),
{
    lemma_header_layout(entry.name, entry.content.len());
    let bytes = entry_bytes(entry);
    let size = entry.content.len() as int;
    assert(bytes.subrange(0, BLOCK_SIZE as int) =~= header(entry.name, entry.content.len()));
    assert(bytes.subrange(BLOCK_SIZE as int, BLOCK_SIZE + size) =~= entry.content);
}

/// An archive of entries is a whole number of blocks long.
pub proof fn lemma_archive_is_blocks(entries: Seq<Entry>)
    requires
        forall|i: int| 0 <= i < entries.len() ==> entry_fits(#[trigger] entries[i]),
    ensures
        archive_bytes(entries).len() % (BLOCK_SIZE as nat) == 0,
    decreases entries.len(),
{
    if entries.len() > 0 {
        lemma_archive_is_blocks(entries.drop_last());
        lemma_entry_is_blocks(entries.last());
    }
}

/// Entries stand in the archive in their order: the archive of the first `k`
/// entries is the start of the archive of all of them, and entry `k` follows
/// it at once.
pub proof fn lemma_archive_order(entries: Seq<Entry>, k: int)
    requires
        0 <= k < entries.len(),
    ensures
        ({
            let before = archive_bytes(entries.take(k));
            let upto = archive_bytes(entries.take(k + 1));
            &&& upto == before + entry_bytes(entries[k])
            &&& upto.len() <= archive_bytes(entries).len()
            &&& archive_bytes(entries).subrange(0, upto.len() as int) == upto
        }),
    decreases entries.len(),
{
    let head = entries.take(k + 1);
    assert(head.drop_last() =~= entries.take(k));
    assert(head.last() == entries[k]);
    if k + 1 == entries.len() {
        assert(head =~= entries);
        let all = archive_bytes(entries);
        assert(all.subrange(0, all.len() as int) =~= all);
    } else {
        let shorter = entries.drop_last();
        lemma_archive_order(shorter, k);
        assert(shorter.take(k) =~= entries.take(k));
        assert(shorter.take(k + 1) =~= head);
        let upto = archive_bytes(head);
        let all = archive_bytes(entries);
        assert(all.subrange(0, upto.len() as int) =~= archive_bytes(shorter).subrange(
            0,
            upto.len() as int,
        ));
    }
}

/// A closed archive is a whole number of blocks, and its last two blocks are
/// the end marker. An archive without entries is the end marker alone.
pub proof fn lemma_closed_archive_end(entries: Seq<Entry>)
    requires
        forall|i: int| 0 <= i < entries.len() ==> entry_fits(#[trigger] entries[i]),
    ensures
        ({
            let closed = archive_bytes(entries) + end_marker();
            &&& closed.len() % (BLOCK_SIZE as nat) == 0
            &&& closed.len() >= 2 * BLOCK_SIZE
            &&& closed.subrange(closed.len() - 2 * BLOCK_SIZE, closed.len() as int) == end_marker()
            &&& entries.len() == 0 ==> closed == end_marker()
        }),
{
    lemma_archive_is_blocks(entries);
    let closed = archive_bytes(entries) + end_marker();
    assert(closed.subrange(closed.len() - 2 * BLOCK_SIZE, closed.len() as int) =~= end_marker());
    if entries.len() == 0 {
        assert(closed =~= end_marker());
    }
}

/// Whether the last block of a payload, as it stands in the archive, holds a
/// byte that is not zero. A payload of no bytes has no block: the header
/// stands in its place.
pub open spec fn ends_in_data(content: Seq<u8>) -> bool {
    content.len() == 0 || exists|i: int|
        0 <= i < content.len() && content.len() + padding_len(content.len()) - BLOCK_SIZE <= i
            && #[trigger] content[i] != 0u8
}

/// The end marker is two blocks and no more: unless the payload of the last
/// entry ends in a whole block of zeros, the block before the marker is not
/// a block of zeros.
pub proof fn lemma_no_third_zero_block(entries: Seq<Entry>)
    requires
        entries.len() > 0,
        forall|i: int| 0 <= i < entries.len() ==> entry_fits(#[trigger] entries[i]),
        ends_in_data(entries.last().content),
    ensures
        ({
            let closed = archive_bytes(entries) + end_marker();
            &&& closed.len() >= 3 * BLOCK_SIZE
            &&& closed.subrange(closed.len() - 3 * BLOCK_SIZE, closed.len() - 2 * BLOCK_SIZE)
                != zeros(BLOCK_SIZE as nat)
        }),
{
    let last = entries.last();
    let content = last.content;
    let before = archive_bytes(entries.drop_last());
    let entry = entry_bytes(last);
    let closed = archive_bytes(entries) + end_marker();
    lemma_entry_is_blocks(last);
    lemma_header_layout(last.name, content.len());
    let block = closed.subrange(closed.len() - 3 * BLOCK_SIZE, closed.len() - 2 * BLOCK_SIZE);
    assert(block =~= entry.subrange(entry.len() - BLOCK_SIZE, entry.len() as int));
    if content.len() == 0 {
        assert(block =~= header(last.name, 0));
        lemma_header_not_blank(last.name, 0);
    } else {
        let i = choose|i: int|
            0 <= i < content.len() && content.len() + padding_len(content.len()) - BLOCK_SIZE <= i
                && #[trigger] content[i] != 0u8;
        let at = 2 * BLOCK_SIZE + i - entry.len();
        assert(block[at] == content[i]);
        assert(zeros(BLOCK_SIZE as nat)[at] == 0u8);
    }
}

/// A writer of archives. It turns entries into the bytes of the archive and
/// holds them until the caller takes them to send them to the sink.
pub struct SimpleTarArchive {
    pending: Vec<u8>,
    sent: Ghost<Seq<u8>>,
    entries: Ghost<Seq<Entry>>,
}

impl SimpleTarArchive {
    /// The entries written so far, in the order in which they were written.
    pub closed spec fn entries(&self) -> Seq<Entry> {
        self.entries@
    }

    /// The bytes that the caller has taken already.
    pub closed spec fn sent(&self) -> Seq<u8> {
        self.sent@
    }

    /// The bytes that wait to be taken.
    pub closed spec fn pending(&self) -> Seq<u8> {
        self.pending@
    }

    /// Every byte of the archive so far, taken or not.
    pub open spec fn stream(&self) -> Seq<u8> {
        self.sent() + self.pending()
    }

    /// The stream is the archive of the entries, and each entry fits the format.
    pub open spec fn wf(&self) -> bool {
        &&& self.stream() == archive_bytes(self.entries())
        &&& forall|i: int|
            0 <= i < self.entries().len() ==> entry_fits(#[trigger] self.entries()[i])
    }

    /// A writer that has written nothing yet.
    pub fn new() -> (tar: Self)
        ensures
            tar.wf(),
            tar.entries() == Seq::<Entry>::empty(),
            tar.sent() == Seq::<u8>::empty(),
            tar.pending() == Seq::<u8>::empty(),
    {
        let tar = SimpleTarArchive {
            pending: Vec::new(),
            sent: Ghost(Seq::empty()),
            entries: Ghost(Seq::empty()),
        };
        assert(tar.stream() =~= archive_bytes(tar.entries()));
        tar
    }

    /// Appends one entry called `file_name` with the payload `contents`: its
    /// header, the payload, and zeros up to the next block boundary.
    pub fn write_file(&mut self, contents: &[u8], file_name: &[u8])
        requires
            old(self).wf(),
            file_name@.len() <= NAME_LIMIT,
            contents@.len() < SIZE_LIMIT,
        ensures
            final(self).wf(),
            final(self).entries() == old(self).entries().push(
                Entry { name: file_name@, content: contents@ },
            ),
            final(self).sent() == old(self).sent(),
            final(self).pending() == old(self).pending() + entry_bytes(
                Entry { name: file_name@, content: contents@ },
            ),
    {
        let ghost entry = Entry { name: file_name@, content: contents@ };
        let size = contents.len() as u64;
        let block = build_header(file_name, size);
        append(&mut self.pending, block.as_slice());
        append(&mut self.pending, contents);
        push_zeros(&mut self.pending, padding_for(size));
        proof {
            self.entries@ = self.entries@.push(entry);
            assert(self.pending@ =~= old(self).pending@ + entry_bytes(entry));
            assert(self.entries@.drop_last() =~= old(self).entries@);
            assert(self.stream() =~= archive_bytes(self.entries@));
        }
    }

    /// Hands over the bytes that wait to be sent. The caller sends them to the
    /// sink in the order in which it took them.
    pub fn take_output(&mut self) -> (out: Vec<u8>)
        requires
            old(self).wf(),
        ensures
            final(self).wf(),
            out@ == old(self).pending(),
            final(self).pending() == Seq::<u8>::empty(),
            final(self).sent() == old(self).stream(),
            final(self).entries() == old(self).entries(),
    {
        let mut out: Vec<u8> = Vec::new();
        std::mem::swap(&mut out, &mut self.pending);
        proof {
            self.sent@ = self.sent@ + out@;
            assert(self.stream() =~= old(self).stream());
        }
        out
    }

    /// Closes the archive: hands over the bytes that wait to be sent, followed
    /// by the end marker. With what was taken before, they are the whole archive.
    pub fn finish(self) -> (out: Vec<u8>)
        requires
            self.wf(),
        ensures
            out@ == self.pending() + end_marker(),
            self.sent() + out@ == archive_bytes(self.entries()) + end_marker(),
    {
        let mut out = self.pending;
        push_zeros(&mut out, 2 * BLOCK_SIZE);
        assert(self.sent() + out@ =~= self.stream() + end_marker());
        out
    }
}

/// Whether an entry with a name of `name_len` bytes and a payload of `size`
/// bytes fits the header's fields, so that it can be written.
pub fn fits(name_len: usize, size: u64) -> (ok: bool)
    ensures
        ok == (name_len <= NAME_LIMIT && size < SIZE_LIMIT),
{
    name_len <= NAME_LIMIT && size < SIZE_LIMIT
}

/// How many zero bytes follow a payload of `size` bytes to fill its last block.
pub fn padding_for(size: u64) -> (n: usize)
    ensures
        n == padding_len(size as nat),
        n < BLOCK_SIZE,
        (size + n) % (BLOCK_SIZE as int) == 0,
{
    let rest = (size % 512) as usize;
    if rest == 0 {
        0
    } else {
        512 - rest
    }
}

} // verus!
