//! Log directory naming: each log file is named `<version>.log` with the
//! version in decimal and no leading zeros.
//!
//! `log_path` renders the file name for a version; `version_list` parses a
//! directory listing back into the versions present, sorted ascending, as
//! recovery replays them. Printing and parsing invert each other
//! (`lemma_log_name_roundtrip`), so a version the store writes is found
//! again on reopen.

use vstd::prelude::*;

use vstd::string::StrSliceExecFns;
use vstd::utf8::{
    decode_utf8_encode_utf8, encode_utf8, is_leading_byte_width_1, partial_valid_utf8,
    partial_valid_utf8_extend_ascii_block, valid_utf8,
};

use crate::store::bytes_to_string;

verus! {

/// The decimal digits of `v`, most significant first, no leading zeros.
pub open spec fn dec_digits(v: u64) -> Seq<u8>
    decreases v,
{
    if v < 10 {
        seq![(48 + v) as u8]
    } else {
        dec_digits(v / 10).push((48 + v % 10) as u8)
    }
}

/// The bytes of the file name `<v>.log`.
pub open spec fn log_name(v: u64) -> Seq<u8> {
    dec_digits(v) + seq![46u8, 108u8, 111u8, 103u8]
}

/// Parses decimal digits onto an accumulator; `None` on a non-digit or on
/// overflow of 64 bits.
pub open spec fn parse_dec(ds: Seq<u8>, acc: u64) -> Option<u64>
    decreases ds.len(),
{
    if ds.len() == 0 {
        Some(acc)
    } else if 48 <= ds[0] <= 57 {
        let next = acc * 10 + (ds[0] - 48);
        if next > u64::MAX {
            None
        } else {
            parse_dec(ds.drop_first(), next as u64)
        }
    } else {
        None
    }
}

/// The version encoded in a file name: one or more decimal digits followed
/// by `.log`, the digits fitting 64 bits.
pub open spec fn parse_version(name: Seq<u8>) -> Option<u64> {
    if name.len() >= 5 && name.subrange(name.len() - 4, name.len() as int) == seq![
        46u8,
        108u8,
        111u8,
        103u8,
    ] {
        parse_dec(name.take(name.len() - 4), 0)
    } else {
        None
    }
}

/// Every byte a decimal rendering emits is ASCII `0` through `9`.
proof fn lemma_dec_digits_ascii(v: u64)
    ensures
        dec_digits(v).len() >= 1,
        forall|i: int| 0 <= i < dec_digits(v).len() ==> 48 <= #[trigger] dec_digits(v)[i] <= 57,
    decreases v,
{
    if v >= 10 {
        lemma_dec_digits_ascii(v / 10);
    }
}

/// `acc` shifted past the digits of `v`: the value the parser accumulates
/// after reading them.
spec fn acc_shift(acc: u64, v: u64) -> int
    decreases v,
{
    if v < 10 {
        acc * 10 + v
    } else {
        acc_shift(acc, v / 10) * 10 + v % 10
    }
}

/// Parsing walks the digits of `v` exactly as rendering laid them down:
/// with the running value within 64 bits throughout, the digits of `v`
/// followed by `rest` parse as `rest` under the shifted accumulator.
proof fn lemma_parse_dec_acc(v: u64, rest: Seq<u8>, acc: u64)
    requires
        acc_shift(acc, v) <= u64::MAX,
    ensures
        0 <= acc_shift(acc, v),
        parse_dec(dec_digits(v) + rest, acc) == parse_dec(rest, acc_shift(acc, v) as u64),
    decreases v,
{
    if v < 10 {
        let s = dec_digits(v) + rest;
        assert(s[0] == 48 + v);
        assert(s.drop_first() =~= rest);
    } else {
        let mid = seq![(48 + v % 10) as u8] + rest;
        assert(dec_digits(v) + rest =~= dec_digits(v / 10) + mid);
        assert(acc_shift(acc, v / 10) * 10 <= acc_shift(acc, v / 10) * 10 + v % 10) by {
            assert(v % 10 >= 0);
        }
        lemma_parse_dec_acc(v / 10, mid, acc);
        assert(mid[0] == 48 + v % 10);
        assert(mid.drop_first() =~= rest);
    }
}

/// With nothing accumulated, the shift is the value itself.
proof fn lemma_acc_shift_zero(v: u64)
    ensures
        acc_shift(0, v) == v,
    decreases v,
{
    if v < 10 {
    } else {
        lemma_acc_shift_zero(v / 10);
        assert((v / 10) * 10 + v % 10 == v) by (nonlinear_arith);
    }
}

/// The name written for a version parses back to that version: the store
/// finds on reopen every log it named.
pub proof fn lemma_log_name_roundtrip(v: u64)
    ensures
        parse_version(log_name(v)) == Some(v),
{
    let name = log_name(v);
    lemma_dec_digits_ascii(v);
    assert(name.subrange(name.len() - 4, name.len() as int) =~= seq![46u8, 108u8, 111u8, 103u8]);
    assert(name.take(name.len() - 4) =~= dec_digits(v));
    lemma_acc_shift_zero(v);
    lemma_parse_dec_acc(v, Seq::empty(), 0);
    assert(dec_digits(v) + Seq::<u8>::empty() =~= dec_digits(v));
}

/// Appends the decimal digits of `v`.
fn push_dec(out: &mut Vec<u8>, v: u64)
    ensures
        final(out)@ == old(out)@ + dec_digits(v),
    decreases v,
{
    if v < 10 {
        out.push(48 + (v as u8));
        proof {
            assert(old(out)@ + dec_digits(v) =~= old(out)@.push((48 + v) as u8));
        }
    } else {
        push_dec(out, v / 10);
        out.push(48 + ((v % 10) as u8));
        proof {
            assert(old(out)@ + dec_digits(v) =~= (old(out)@ + dec_digits(v / 10)).push(
                (48 + v % 10) as u8,
            ));
        }
    }
}

/// The file name of the log with version `v`: `<v>.log`.
pub fn log_path(version: u64) -> (name: String)
    ensures
        encode_utf8(name@) == log_name(version),
        parse_version(encode_utf8(name@)) == Some(version),
{
    let mut bytes: Vec<u8> = Vec::new();
    push_dec(&mut bytes, version);
    bytes.push(46);
    bytes.push(108);
    bytes.push(111);
    bytes.push(103);
    proof {
        assert(bytes@ =~= log_name(version));
        lemma_dec_digits_ascii(version);
        assert forall|i: int| 0 <= i < bytes@.len() implies is_leading_byte_width_1(
            #[trigger] bytes@[i],
        ) by {
            if i < dec_digits(version).len() {
                assert(bytes@[i] == dec_digits(version)[i]);
            }
        }
        assert(bytes@.subrange(0, 0) =~= Seq::<u8>::empty());
        assert(partial_valid_utf8(bytes@, 0));
        partial_valid_utf8_extend_ascii_block(bytes@, 0, bytes@.len() as int);
        assert(bytes@.subrange(0, bytes@.len() as int) =~= bytes@);
        assert(valid_utf8(bytes@));
    }
    let ghost bs = bytes@;
    match bytes_to_string(bytes) {
        Some(name) => {
            proof {
                decode_utf8_encode_utf8(bs);
                lemma_log_name_roundtrip(version);
            }
            name
        },
        None => {
            // Unreachable: the name is ASCII, hence valid UTF-8.
            proof {
                assert(false);
            }
            String::new()
        },
    }
}

/// Inserts `v` into an ascending list of versions, keeping it ascending
/// and without duplicates.
fn insert_sorted(r: &mut Vec<u64>, v: u64)
    requires
        forall|a: int, b: int| 0 <= a < b < old(r)@.len() ==> old(r)@[a] < old(r)@[b],
    ensures
        forall|a: int, b: int| 0 <= a < b < final(r)@.len() ==> final(r)@[a] < final(r)@[b],
        forall|x: u64| final(r)@.contains(x) <==> (old(r)@.contains(x) || x == v),
{
    let n = r.len();
    let mut i: usize = 0;
    while i < n && r[i] < v
        invariant
            i <= n,
            n == r@.len(),
            *r == *old(r),
            forall|j: int| 0 <= j < i ==> #[trigger] r@[j] < v,
        decreases n - i,
    {
        i = i + 1;
    }
    if i < n && r[i] == v {
        proof {
            assert(r@[i as int] == v);
            assert(r@.contains(v));
            assert forall|x: u64| r@.contains(x) <==> (old(r)@.contains(x) || x == v) by {}
        }
        return ;
    }
    let ghost before = r@;
    r.insert(i, v);
    proof {
        assert(r@ =~= before.take(i as int) + seq![v] + before.skip(i as int));
        assert(r@[i as int] == v);
        assert forall|a: int, b: int| 0 <= a < b < r@.len() implies r@[a] < r@[b] by {
            let ra = if a < i { before[a] } else if a == i { v } else { before[a - 1] };
            assert(r@[a] == ra);
            let rb = if b < i { before[b] } else if b == i { v } else { before[b - 1] };
            assert(r@[b] == rb);
            if a < i && b == i {
                assert(before[a] < v);
            } else if a == i && b > i {
                // `v` is below every element at or after slot `i`: it is
                // not below the scanned prefix, not equal to the element
                // there, and the list ascends.
                assert(!(before[i as int] < v) && before[i as int] != v);
            } else if a < i && b > i {
            }
        }
        assert forall|x: u64| r@.contains(x) <==> (before.contains(x) || x == v) by {
            if r@.contains(x) {
                let j = choose|j: int| 0 <= j < r@.len() && r@[j] == x;
                if j < i {
                    assert(before[j] == x);
                } else if j > i {
                    assert(before[j - 1] == x);
                }
            }
            if before.contains(x) {
                let j = choose|j: int| 0 <= j < before.len() && before[j] == x;
                if j < i {
                    assert(r@[j] == x);
                } else {
                    assert(r@[j + 1] == x);
                }
            }
            if x == v {
                assert(r@[i as int] == x);
            }
        }
    }
}

/// The versions named by the files of a directory listing, ascending and
/// without duplicates: every name of the form `<digits>.log` contributes
/// its version; other names are not the store's and are ignored.
pub fn version_list(names: &Vec<String>) -> (r: Vec<u64>)
    ensures
        forall|a: int, b: int| 0 <= a < b < r@.len() ==> r@[a] < r@[b],
        forall|x: u64|
            r@.contains(x) <==> exists|i: int|
                0 <= i < names@.len() && parse_version(encode_utf8(#[trigger] names@[i]@)) == Some(
                    x,
                ),
{
    let n = names.len();
    let mut r: Vec<u64> = Vec::new();
    let mut i: usize = 0;
    while i < n
        invariant
            i <= n,
            n == names@.len(),
            forall|a: int, b: int| 0 <= a < b < r@.len() ==> r@[a] < r@[b],
            forall|x: u64|
                r@.contains(x) <==> exists|j: int|
                    0 <= j < i && parse_version(encode_utf8(#[trigger] names@[j]@)) == Some(x),
        decreases n - i,
    {
        let bytes = names[i].as_str().as_bytes_vec();
        match parse_name(&bytes) {
            Some(v) => {
                insert_sorted(&mut r, v);
                proof {
                    assert(parse_version(encode_utf8(names@[i as int]@)) == Some(v));
                    assert forall|x: u64|
                        r@.contains(x) <==> exists|j: int|
                            0 <= j < i + 1 && parse_version(encode_utf8(#[trigger] names@[j]@))
                                == Some(x) by {
                        if r@.contains(x) {
                            if x == v {
                                assert(parse_version(encode_utf8(names@[i as int]@)) == Some(x));
                            }
                        }
                    }
                }
            },
            None => {},
        }
        i = i + 1;
    }
    r
}

/// Parses a file name's bytes as `<digits>.log`.
fn parse_name(bytes: &Vec<u8>) -> (r: Option<u64>)
    ensures
        r == parse_version(bytes@),
{
    let n = bytes.len();
    if n < 5 {
        return None;
    }
    let suffix_ok = bytes[n - 4] == 46 && bytes[n - 3] == 108 && bytes[n - 2] == 111 && bytes[n
        - 1] == 103;
    proof {
        if suffix_ok {
            assert(bytes@.subrange(n - 4, n as int) =~= seq![46u8, 108u8, 111u8, 103u8]);
        } else {
            if bytes@.subrange(n - 4, n as int) == seq![46u8, 108u8, 111u8, 103u8] {
                assert(forall|j: int|
                    0 <= j < 4 ==> bytes@[n - 4 + j] == #[trigger] bytes@.subrange(
                        n - 4,
                        n as int,
                    )[j]);
                assert(false);
            }
        }
    }
    if !suffix_ok {
        return None;
    }
    let ghost digits = bytes@.take(n - 4);
    proof {
        assert(digits.skip(0) =~= digits);
    }
    let mut acc: u64 = 0;
    let mut i: usize = 0;
    while i < n - 4
        invariant
            i <= n - 4,
            n == bytes@.len(),
            n >= 5,
            digits == bytes@.take(n - 4),
            parse_dec(digits, 0) == parse_dec(digits.skip(i as int), acc),
        decreases n - i,
    {
        let b = bytes[i];
        proof {
            assert(digits.skip(i as int)[0] == bytes@[i as int]);
        }
        if b < 48 || b > 57 {
            return None;
        }
        let d = b - 48;
        if acc > (u64::MAX - (d as u64)) / 10 {
            proof {
                assert(acc * 10 + d > u64::MAX) by (nonlinear_arith)
                    requires
                        acc > ((u64::MAX - d) as u64) / 10,
                        d < 10,
                        acc <= u64::MAX,
                ;
            }
            return None;
        }
        proof {
            assert(acc * 10 + d <= u64::MAX) by (nonlinear_arith)
                requires
                    acc <= ((u64::MAX - d) as u64) / 10,
                    d < 10,
            ;
        }
        acc = acc * 10 + (d as u64);
        proof {
            assert(digits.skip(i as int).drop_first() =~= digits.skip(i + 1));
        }
        i = i + 1;
    }
    proof {
        assert(digits.skip(n - 4) =~= Seq::<u8>::empty());
    }
    Some(acc)
}

} // verus!
