//! Bounds checks of block and slice I/O, and the file path of a block.
use vstd::prelude::*;

use crate::error::{SUError, SUResult};
use std::ops::Range;

verus! {

/// A write of `data_len` bytes must cover the block exactly.
pub fn check_block_range(data_len: usize, block_size: usize) -> (r: SUResult<()>)
    ensures
        r is Ok <==> data_len == block_size,
        r is Err ==> r matches Err(SUError::Range(_)),
{
    if data_len != block_size {
        return Err(SUError::range_not_match("data length does not match the block size"));
    }
    Ok(())
}

/// The first and the last byte of `range` lie in `[0, block_size)`.
pub open spec fn slice_in_block(range: Range<usize>, block_size: usize) -> bool {
    &&& range.start < block_size
    &&& 1 <= range.end
    &&& range.end - 1 < block_size
}

/// A slice access must start and end inside the block.
pub fn check_slice_range(range: Range<usize>, block_size: usize) -> (r: SUResult<()>)
    ensures
        r is Ok <==> slice_in_block(range, block_size),
        r is Err ==> r matches Err(SUError::Range(_)),
{
    if range.start >= block_size || range.end == 0 || range.end - 1 >= block_size {
        return Err(SUError::out_of_range("slice is out of the block"));
    }
    Ok(())
}

/// The upper-case hexadecimal digit of `d < 16`.
pub open spec fn hex_char(d: nat) -> u8 {
    if d < 10 {
        (48 + d) as u8
    } else {
        (55 + d) as u8
    }
}

/// The value of a hexadecimal digit (either case), if it is one.
pub open spec fn hex_val(c: u8) -> Option<nat> {
    if 48 <= c <= 57 {
        Some((c - 48) as nat)
    } else if 65 <= c <= 70 {
        Some((c - 55) as nat)
    } else if 97 <= c <= 102 {
        Some((c - 87) as nat)
    } else {
        None
    }
}

/// The hexadecimal digits of `n`, most significant first, padded with zeros to at least
/// `w` digits.
pub open spec fn hex_digits(n: nat, w: nat) -> Seq<u8>
    decreases n + w,
{
    if n == 0 && w == 0 {
        Seq::empty()
    } else {
        hex_digits(n / 16, if w > 0 { (w - 1) as nat } else { 0 }).push(hex_char(n % 16))
    }
}

/// The value of a string of hexadecimal digits, if all are digits.
pub open spec fn hex_value(s: Seq<u8>) -> Option<nat>
    decreases s.len(),
{
    if s.len() == 0 {
        Some(0)
    } else {
        match (hex_value(s.drop_last()), hex_val(s.last())) {
            (Some(v), Some(d)) => Some(v * 16 + d),
            _ => None,
        }
    }
}

/// `<root>/<first two hex digits>/<the other digits>` of a block id written with at least
/// four upper-case hex digits.
pub open spec fn block_path(root: Seq<u8>, block_id: nat) -> Seq<u8> {
    let h = hex_digits(block_id, 4);
    root + seq![47u8] + h.subrange(0, 2) + seq![47u8] + h.subrange(2, h.len() as int)
}

proof fn lemma_hex_digits(n: nat, w: nat)
    ensures
        hex_value(hex_digits(n, w)) == Some(n),
        hex_digits(n, w).len() >= w,
        forall|i: int| 0 <= i < hex_digits(n, w).len() ==> (#[trigger] hex_digits(n, w)[i]) != 47u8,
    decreases n + w,
{
    if !(n == 0 && w == 0) {
        let w2: nat = if w > 0 { (w - 1) as nat } else { 0 };
        lemma_hex_digits(n / 16, w2);
        let d = hex_digits(n / 16, w2);
        assert(hex_digits(n, w).drop_last() =~= d);
        assert(hex_val(hex_char(n % 16)) == Some(n % 16));
        assert((n / 16) * 16 + n % 16 == n);
        assert forall|i: int| 0 <= i < hex_digits(n, w).len() implies (#[trigger] hex_digits(n, w)[i]) != 47u8 by {
            if i < d.len() {
                assert(hex_digits(n, w)[i] == d[i]);
            }
        }
    }
}

fn hex_char_exec(d: usize) -> (r: u8)
    requires
        d < 16,
    ensures
        r == hex_char(d as nat),
{
    if d < 10 {
        (48 + d) as u8
    } else {
        (55 + d) as u8
    }
}

fn hex_digits_exec(n: usize, w: usize) -> (r: Vec<u8>)
    ensures
        r@ == hex_digits(n as nat, w as nat),
    decreases n + w,
{
    if n == 0 && w == 0 {
        Vec::new()
    } else {
        let w2 = if w > 0 { w - 1 } else { 0 };
        let mut v = hex_digits_exec(n / 16, w2);
        v.push(hex_char_exec(n % 16));
        v
    }
}

/// A prefix of a string of digits is digits too, and worth no more.
proof fn lemma_hex_prefix(s: Seq<u8>, n: int)
    requires
        0 <= n <= s.len(),
        hex_value(s) is Some,
    ensures
        hex_value(s.take(n)) is Some,
        hex_value(s.take(n)).unwrap() <= hex_value(s).unwrap(),
    decreases s.len() - n,
{
    if n == s.len() {
        assert(s.take(n) =~= s);
    } else {
        lemma_hex_prefix(s, n + 1);
        assert(s.take(n + 1).drop_last() =~= s.take(n));
    }
}

/// The file of block `block_id` under `dev_root`.
pub fn block_id_to_path(dev_root: &[u8], block_id: usize) -> (r: Vec<u8>)
    ensures
        r@ == block_path(dev_root@, block_id as nat),
{
    let h = hex_digits_exec(block_id, 4);
    proof {
        lemma_hex_digits(block_id as nat, 4);
    }
    let mut out: Vec<u8> = Vec::new();
    let mut i: usize = 0;
    while i < dev_root.len()
        invariant
            i <= dev_root@.len(),
            out@ == dev_root@.take(i as int),
        decreases dev_root@.len() - i,
    {
        out.push(dev_root[i]);
        i = i + 1;
        assert(out@ =~= dev_root@.take(i as int));
    }
    assert(dev_root@.take(dev_root@.len() as int) =~= dev_root@);
    out.push(47);
    let ghost base = out@;
    let mut j: usize = 0;
    while j < h.len()
        invariant
            j <= h@.len(),
            h@.len() >= 4,
            j <= 2 ==> out@ == base + h@.subrange(0, j as int),
            j > 2 ==> out@ == base + h@.subrange(0, 2) + seq![47u8] + h@.subrange(2, j as int),
        decreases h@.len() - j,
    {
        if j == 2 {
            out.push(47);
            assert(out@ =~= base + h@.subrange(0, 2) + seq![47u8] + h@.subrange(2, 2));
        }
        out.push(h[j]);
        j = j + 1;
        if j <= 2 {
            assert(out@ =~= base + h@.subrange(0, j as int));
        } else {
            assert(out@ =~= base + h@.subrange(0, 2) + seq![47u8] + h@.subrange(2, j as int));
        }
    }
    assert(out@ =~= block_path(dev_root@, block_id as nat));
    out
}

/// The block id that a block file's path names: the hex digits of its last two
/// components. `None` when they are not hex digits or the value does not fit.
pub fn block_path_to_id(path: &[u8]) -> (r: Option<usize>)
    ensures
        forall|root: Seq<u8>, id: usize| path@ == #[trigger] block_path(root, id as nat) ==> r == Some(id),
{
    // the last two separators
    let mut last: usize = path.len();
    let mut prev: usize = path.len();
    let mut i: usize = 0;
    while i < path.len()
        invariant
            i <= path@.len(),
            last == path@.len() || (last < i && path@[last as int] == 47u8 && forall|t: int| last < t < i ==> path@[t] != 47u8),
            last == path@.len() ==> forall|t: int| 0 <= t < i ==> path@[t] != 47u8,
            last < path@.len() ==> (prev == path@.len() || (prev < last && path@[prev as int] == 47u8 && forall|t: int| prev < t < last ==> path@[t] != 47u8)),
            last < path@.len() && prev == path@.len() ==> forall|t: int| 0 <= t < last ==> path@[t] != 47u8,
        decreases path@.len() - i,
    {
        if path[i] == 47 {
            prev = last;
            last = i;
        }
        i = i + 1;
    }
    if last == path.len() || prev == path.len() {
        proof {
            assert forall|root: Seq<u8>, id: usize| path@ != #[trigger] block_path(root, id as nat) by {
                if path@ == block_path(root, id as nat) {
                    lemma_hex_digits(id as nat, 4);
                    assert(path@[root.len() as int] == 47u8);
                    assert(path@[root.len() as int + 3] == 47u8);
                }
            }
        }
        return None;
    }
    let ghost digits = path@.subrange(prev + 1, last as int) + path@.subrange(last + 1, path@.len() as int);
    proof {
        assert forall|root: Seq<u8>, id: usize| path@ == #[trigger] block_path(root, id as nat) implies digits
            == hex_digits(id as nat, 4) by {
            lemma_hex_digits(id as nat, 4);
            let h = hex_digits(id as nat, 4);
            let r = root.len() as int;
            assert(path@[r] == 47u8);
            assert(path@[r + 3] == 47u8);
            assert forall|t: int| r + 3 < t < path@.len() implies path@[t] != 47u8 by {
                assert(path@[t] == h[t - r - 2]);
            }
            assert forall|t: int| r < t < r + 3 implies path@[t] != 47u8 by {
                assert(path@[t] == h[t - r - 1]);
            }
            assert(last as int == r + 3);
            assert(prev as int == r);
            assert(digits =~= h);
        }
    }
    let mut value: usize = 0;
    let mut j: usize = prev + 1;
    let ghost mut n: int = 0;
    while j < path.len()
        invariant
            prev < last < path@.len(),
            prev + 1 <= j <= path@.len(),
            digits == path@.subrange(prev + 1, last as int) + path@.subrange(last + 1, path@.len() as int),
            n == if j <= last { j - prev - 1 } else { j - prev - 2 },
            0 <= n <= digits.len(),
            hex_value(digits.take(n)) == Some(value as nat),
            forall|root: Seq<u8>, id: usize| path@ == #[trigger] block_path(root, id as nat) ==> digits == hex_digits(id as nat, 4),
        decreases path@.len() - j,
    {
        if j == last {
            j = j + 1;
        } else {
            let c = path[j];
            proof {
                assert(digits[n] == c);
                assert(digits.take(n + 1).drop_last() =~= digits.take(n));
                assert forall|root: Seq<u8>, id: usize| path@ == #[trigger] block_path(root, id as nat) implies hex_val(c) is Some
                    && value * 16 + hex_val(c).unwrap() <= id by {
                    lemma_hex_digits(id as nat, 4);
                    lemma_hex_prefix(digits, n + 1);
                }
            }
            let d: usize = if 48 <= c && c <= 57 {
                (c - 48) as usize
            } else if 65 <= c && c <= 70 {
                (c - 55) as usize
            } else if 97 <= c && c <= 102 {
                (c - 87) as usize
            } else {
                return None;
            };
            if value > (usize::MAX - d) / 16 {
                return None;
            }
            value = value * 16 + d;
            j = j + 1;
            proof {
                n = n + 1;
            }
        }
    }
    proof {
        assert(n == digits.len());
        assert(digits.take(n) =~= digits);
        assert forall|root: Seq<u8>, id: usize| path@ == #[trigger] block_path(root, id as nat) implies value == id by {
            lemma_hex_digits(id as nat, 4);
        }
    }
    Some(value)
}

} // verus!
