//! How things are called: the numbered entries of the archive, the names made
//! from a time stamp, and the extension that tells whether an image has to be
//! converted.

use crate::bytes::append;
use crate::radix::{
    digit_count, digits, lemma_digits_monotonic, lemma_digits_nonempty,
    lemma_number_of_zero_padded, push_zero_padded, zero_padded,
};
use vstd::prelude::*;

verus! {

/// The widest zero padding that leaves an entry name inside the name field of
/// an archive header.
pub const WIDTH_LIMIT: usize = 95;

/// The extension of every entry, and of an image that needs no conversion: `.avif`.
pub open spec fn extension() -> Seq<u8> {
    seq![46u8, 97u8, 118u8, 105u8, 102u8]
}

/// The padding width for `total` inputs: the number of decimal digits of `total`.
pub open spec fn digit_width(total: nat) -> nat {
    digits(total, 10).len()
}

/// The name of entry `index`: the index in decimal, zero-padded to `width`
/// digits, followed by the extension.
pub open spec fn numbered_name(index: nat, width: nat) -> Seq<u8> {
    zero_padded(index, 10, width) + extension()
}

/// A name made from a prefix and a time stamp: the prefix, a hyphen, and the
/// stamp as eight lower-case hexadecimal digits.
pub open spec fn stamped_name(prefix: Seq<u8>, stamp: u32) -> Seq<u8> {
    prefix + seq![45u8] + zero_padded(stamp as nat, 16, 8)
}

/// An ASCII letter in lower case; any other byte unchanged.
pub open spec fn ascii_lower(b: u8) -> u8 {
    if 65 <= b <= 90 {
        (b + 32) as u8
    } else {
        b
    }
}

/// Whether two byte strings are equal but for the case of ASCII letters.
pub open spec fn same_ignoring_case(a: Seq<u8>, b: Seq<u8>) -> bool {
    &&& a.len() == b.len()
    &&& forall|i: int| 0 <= i < a.len() ==> ascii_lower(#[trigger] a[i]) == ascii_lower(b[i])
}

/// Whether a path names a file that has the target extension already: its
/// last component is a stem of at least one byte followed by `.avif`, in any
/// mix of upper and lower case. Components are separated by `/`.
pub open spec fn has_target_extension(path: Seq<u8>) -> bool {
    &&& path.len() > 5
    &&& path[path.len() - 6] != 47u8
    &&& same_ignoring_case(path.subrange(path.len() - 5, path.len() as int), extension())
}

/// No machine index has more than twenty decimal digits, nor a time stamp
/// more than eight hexadecimal ones.
pub proof fn lemma_machine_widths(index: usize, stamp: u32)
    ensures
        digits(index as nat, 10).len() <= 20,
        digits(stamp as nat, 16).len() <= 8,
        zero_padded(stamp as nat, 16, 8).len() == 8,
{
    lemma_digits_monotonic(index as nat, 0xffff_ffff_ffff_ffff, 10);
    lemma_digits_monotonic(stamp as nat, 0xffff_ffff, 16);
    assert(digits(0xffff_ffff_ffff_ffff, 10).len() == 20) by {
        reveal_with_fuel(digits, 21);
    }
    assert(digits(0xffff_ffff, 16).len() == 8) by {
        reveal_with_fuel(digits, 9);
    }
}

/// With a width of at most `WIDTH_LIMIT`, every entry name fits the name
/// field of an archive header.
pub proof fn lemma_name_fits(index: usize, width: nat)
    requires
        width <= WIDTH_LIMIT,
    ensures
        numbered_name(index as nat, width).len() <= 100,
{
    lemma_machine_widths(index, 0);
}

/// With the width taken from the number of inputs, the names of all entries
/// have the same length: no index from 0 to `total` has more digits than `total`.
pub proof fn lemma_names_same_length(index: nat, total: nat)
    requires
        index <= total,
    ensures
        zero_padded(index, 10, digit_width(total)).len() == digit_width(total),
        numbered_name(index, digit_width(total)).len() == digit_width(total) + 5,
{
    lemma_digits_monotonic(index, total, 10);
}

/// Two entries have the same name only if they have the same index.
pub proof fn lemma_names_distinct(i: nat, j: nat, width: nat)
    requires
        numbered_name(i, width) == numbered_name(j, width),
    ensures
        i == j,
{
    let a = zero_padded(i, 10, width);
    let b = zero_padded(j, 10, width);
    assert(a.len() == b.len()) by {
        assert((a + extension()).len() == (b + extension()).len());
    }
    assert(a =~= (a + extension()).subrange(0, a.len() as int));
    assert(b =~= (b + extension()).subrange(0, b.len() as int));
    lemma_number_of_zero_padded(i, 10, width);
    lemma_number_of_zero_padded(j, 10, width);
}

/// Two stamps give the same name only if they are the same stamp.
pub proof fn lemma_stamps_distinct(prefix: Seq<u8>, a: u32, b: u32)
    requires
        stamped_name(prefix, a) == stamped_name(prefix, b),
    ensures
        a == b,
{
    let head = prefix + seq![45u8];
    let x = zero_padded(a as nat, 16, 8);
    let y = zero_padded(b as nat, 16, 8);
    lemma_machine_widths(0, a);
    lemma_machine_widths(0, b);
    assert(x =~= (head + x).subrange(head.len() as int, head.len() as int + 8));
    assert(y =~= (head + y).subrange(head.len() as int, head.len() as int + 8));
    lemma_number_of_zero_padded(a as nat, 16, 8);
    lemma_number_of_zero_padded(b as nat, 16, 8);
}

/// The padding width for `total` inputs.
pub fn pad_width(total: usize) -> (width: usize)
    ensures
        width == digit_width(total as nat),
        1 <= width <= 20,
{
    proof {
        lemma_machine_widths(total, 0);
        lemma_digits_nonempty(total as nat, 10);
    }
    digit_count(total as u64, 10)
}

fn push_extension(out: &mut Vec<u8>)
    ensures
        final(out)@ == old(out)@ + extension(),
{
    out.push(46u8);
    out.push(97u8);
    out.push(118u8);
    out.push(105u8);
    out.push(102u8);
    assert(out@ =~= old(out)@ + extension());
}

/// The name of entry `index` with a padding of `width` digits.
pub fn entry_name(index: usize, width: usize) -> (name: Vec<u8>)
    ensures
        name@ == numbered_name(index as nat, width as nat),
{
    let mut name: Vec<u8> = Vec::new();
    push_zero_padded(&mut name, index as u64, 10, width);
    push_extension(&mut name);
    assert(name@ =~= numbered_name(index as nat, width as nat));
    name
}

/// A name made from `prefix` and a time stamp.
pub fn unique_name(prefix: &[u8], stamp: u32) -> (name: Vec<u8>)
    ensures
        name@ == stamped_name(prefix@, stamp),
{
    let mut name: Vec<u8> = Vec::new();
    append(&mut name, prefix);
    name.push(45u8);
    push_zero_padded(&mut name, stamp as u64, 16, 8);
    assert(name@ =~= stamped_name(prefix@, stamp));
    name
}

fn lower(b: u8) -> (l: u8)
    ensures
        l == ascii_lower(b),
{
    if 65 <= b && b <= 90 {
        b + 32
    } else {
        b
    }
}

/// Whether the image at `path` has to be converted before it goes into the
/// archive: it has to unless it has the target extension already.
pub fn needs_conversion(path: &[u8]) -> (convert: bool)
    ensures
        convert == !has_target_extension(path@),
{
    let n = path.len();
    if n <= 5 {
        return true;
    }
    let same = path[n - 6] != 47u8 && path[n - 5] == 46u8 && lower(path[n - 4]) == 97u8 && lower(
        path[n - 3],
    ) == 118u8 && lower(path[n - 2]) == 105u8 && lower(path[n - 1]) == 102u8;
    proof {
        let tail = path@.subrange(n - 5, n as int);
        let ext = extension();
        if same {
            assert forall|i: int| 0 <= i < tail.len() implies ascii_lower(#[trigger] tail[i])
                == ascii_lower(ext[i]) by {}
        } else if path[n - 6] != 47u8 {
            assert(ascii_lower(tail[0]) != ascii_lower(ext[0]) || ascii_lower(tail[1])
                != ascii_lower(ext[1]) || ascii_lower(tail[2]) != ascii_lower(ext[2])
                || ascii_lower(tail[3]) != ascii_lower(ext[3]) || ascii_lower(tail[4])
                != ascii_lower(ext[4]));
        }
    }
    !same
}

} // verus!
