//! The record codec: every mutation is one self-delimiting textual record.
//!
//! A record is the JSON encoding of a tagged value, one of
//! `{"Set":{"key":"<k>","value":"<v>"}}` or `{"Remove":{"key":"<k>"}}`,
//! written in UTF-8 with JSON string escaping. Records are concatenated with
//! no separator; the decoder finds the end of a record from the encoding
//! alone, so a log file needs no external framing.
//!
//! The module works on bytes. `encoding` is the mathematical form of the
//! encoder; `decode_rec` is the mathematical form of the decoder, consuming
//! one record from the front of a byte sequence. The two central facts are
//! proved here: decoding an encoding yields the record back and consumes
//! exactly its bytes (`lemma_decode_encoding`), and a decode result depends
//! only on the bytes it consumed (`lemma_decode_rec_prefix`), which makes
//! records stable under appends and byte-exact copies.

use vstd::prelude::*;

verus! {

/// The mathematical form of a record: a tagged mutation on byte strings.
pub enum Record {
    Put { key: Seq<u8>, value: Seq<u8> },
    Remove { key: Seq<u8> },
}

/// One mutation as executable data, with byte-string key and value.
pub enum Command {
    Put { key: Vec<u8>, value: Vec<u8> },
    Remove { key: Vec<u8> },
}

impl View for Command {
    type V = Record;

    open spec fn view(&self) -> Record {
        match self {
            Command::Put { key, value } => Record::Put { key: key@, value: value@ },
            Command::Remove { key } => Record::Remove { key: key@ },
        }
    }
}

/// The hexadecimal digit for `n < 16`, lower case.
pub open spec fn hex_digit(n: u8) -> u8 {
    if n < 10 {
        (48 + n) as u8
    } else {
        (87 + n) as u8
    }
}

/// The numeric value of an ASCII hexadecimal digit, either case.
pub open spec fn hex_val(b: u8) -> Option<u8> {
    if 48 <= b <= 57 {
        Some((b - 48) as u8)
    } else if 97 <= b <= 102 {
        Some((b - 87) as u8)
    } else if 65 <= b <= 70 {
        Some((b - 55) as u8)
    } else {
        None
    }
}

/// The JSON string escaping of one byte. Quote and backslash get a named
/// escape, as do the five control characters that have one; the remaining
/// control bytes get a `\u00XX` escape; every other byte stands for itself.
pub open spec fn esc_byte(b: u8) -> Seq<u8> {
    if b == 34 {
        seq![92u8, 34u8]
    } else if b == 92 {
        seq![92u8, 92u8]
    } else if b == 8 {
        seq![92u8, 98u8]
    } else if b == 12 {
        seq![92u8, 102u8]
    } else if b == 10 {
        seq![92u8, 110u8]
    } else if b == 13 {
        seq![92u8, 114u8]
    } else if b == 9 {
        seq![92u8, 116u8]
    } else if b < 32 {
        seq![92u8, 117u8, 48u8, 48u8, hex_digit(b / 16), hex_digit(b % 16)]
    } else {
        seq![b]
    }
}

/// The JSON string escaping of a byte string.
pub open spec fn esc_bytes(s: Seq<u8>) -> Seq<u8>
    decreases s.len(),
{
    if s.len() == 0 {
        Seq::empty()
    } else {
        esc_byte(s[0]) + esc_bytes(s.drop_first())
    }
}

/// An escaped byte string followed by its closing quote.
pub open spec fn str_enc(s: Seq<u8>) -> Seq<u8> {
    esc_bytes(s) + seq![34u8]
}

/// The bytes of `{"Set":{"key":"`, up to and including the opening quote of
/// the key.
pub open spec fn set_pre() -> Seq<u8> {
    seq![123u8, 34u8, 83u8, 101u8, 116u8, 34u8, 58u8, 123u8, 34u8, 107u8, 101u8, 121u8, 34u8, 58u8, 34u8]
}

/// The bytes of `,"value":"`, between the key's closing quote and the
/// value's first byte.
pub open spec fn val_sep() -> Seq<u8> {
    seq![44u8, 34u8, 118u8, 97u8, 108u8, 117u8, 101u8, 34u8, 58u8, 34u8]
}

/// The bytes of `{"Remove":{"key":"`, up to and including the opening quote
/// of the key.
pub open spec fn rm_pre() -> Seq<u8> {
    seq![123u8, 34u8, 82u8, 101u8, 109u8, 111u8, 118u8, 101u8, 34u8, 58u8, 123u8, 34u8, 107u8, 101u8, 121u8, 34u8, 58u8, 34u8]
}

/// The bytes of `}}`, closing a record.
pub open spec fn rec_close() -> Seq<u8> {
    seq![125u8, 125u8]
}

/// The encoding of one record.
pub open spec fn encoding(r: Record) -> Seq<u8> {
    match r {
        Record::Put { key, value } => set_pre() + str_enc(key) + val_sep() + str_enc(value) + rec_close(),
        Record::Remove { key } => rm_pre() + str_enc(key) + rec_close(),
    }
}

/// Escaping distributes over concatenation.
pub proof fn lemma_esc_bytes_concat(a: Seq<u8>, b: Seq<u8>)
    ensures
        esc_bytes(a + b) == esc_bytes(a) + esc_bytes(b),
    decreases a.len(),
{
    if a.len() == 0 {
        assert(a + b =~= b);
        assert(esc_bytes(a) + esc_bytes(b) =~= esc_bytes(b));
    } else {
        assert((a + b)[0] == a[0]);
        assert((a + b).drop_first() =~= a.drop_first() + b);
        lemma_esc_bytes_concat(a.drop_first(), b);
        assert(esc_byte(a[0]) + (esc_bytes(a.drop_first()) + esc_bytes(b)) =~= (esc_byte(a[0])
            + esc_bytes(a.drop_first())) + esc_bytes(b));
    }
}

/// Escaping one more byte appends that byte's escape.
pub proof fn lemma_esc_bytes_take_succ(s: Seq<u8>, i: int)
    requires
        0 <= i < s.len(),
    ensures
        esc_bytes(s.take(i + 1)) == esc_bytes(s.take(i)) + esc_byte(s[i]),
{
    assert(s.take(i + 1) =~= s.take(i) + seq![s[i]]);
    lemma_esc_bytes_concat(s.take(i), seq![s[i]]);
    assert(seq![s[i]].drop_first() =~= Seq::<u8>::empty());
    assert(esc_bytes(seq![s[i]]) == esc_byte(s[i]) + esc_bytes(Seq::<u8>::empty()));
    assert(esc_byte(s[i]) + esc_bytes(Seq::<u8>::empty()) =~= esc_byte(s[i]));
}

/// The hexadecimal digit of `n < 16`, as executable code.
fn hex_digit_exec(n: u8) -> (r: u8)
    requires
        n < 16,
    ensures
        r == hex_digit(n),
{
    if n < 10 {
        48 + n
    } else {
        87 + n
    }
}

/// Appends the JSON string escaping of `s` to `out`.
fn push_escaped(out: &mut Vec<u8>, s: &Vec<u8>)
    ensures
        final(out)@ == old(out)@ + esc_bytes(s@),
{
    let ghost base = out@;
    let mut i: usize = 0;
    while i < s.len()
        invariant
            i <= s@.len(),
            out@ == base + esc_bytes(s@.take(i as int)),
        decreases s@.len() - i,
    {
        let b = s[i];
        if b == 34 {
            out.push(92);
            out.push(34);
        } else if b == 92 {
            out.push(92);
            out.push(92);
        } else if b == 8 {
            out.push(92);
            out.push(98);
        } else if b == 12 {
            out.push(92);
            out.push(102);
        } else if b == 10 {
            out.push(92);
            out.push(110);
        } else if b == 13 {
            out.push(92);
            out.push(114);
        } else if b == 9 {
            out.push(92);
            out.push(116);
        } else if b < 32 {
            out.push(92);
            out.push(117);
            out.push(48);
            out.push(48);
            out.push(hex_digit_exec(b / 16));
            out.push(hex_digit_exec(b % 16));
        } else {
            out.push(b);
        }
        proof {
            lemma_esc_bytes_take_succ(s@, i as int);
            assert(out@ =~= base + esc_bytes(s@.take(i + 1)));
        }
        i = i + 1;
    }
    proof {
        assert(s@.take(s@.len() as int) =~= s@);
    }
}

/// Encodes one record as its self-delimiting JSON form.
pub fn encode_record(cmd: &Command) -> (out: Vec<u8>)
    ensures
        out@ == encoding(cmd@),
{
    let mut out: Vec<u8> = Vec::new();
    match cmd {
        Command::Put { key, value } => {
            out.push(123);
            out.push(34);
            out.push(83);
            out.push(101);
            out.push(116);
            out.push(34);
            out.push(58);
            out.push(123);
            out.push(34);
            out.push(107);
            out.push(101);
            out.push(121);
            out.push(34);
            out.push(58);
            out.push(34);
            proof {
                assert(out@ =~= set_pre());
            }
            push_escaped(&mut out, key);
            out.push(34);
            proof {
                assert(out@ =~= set_pre() + str_enc(key@));
            }
            let ghost mid = out@;
            out.push(44);
            out.push(34);
            out.push(118);
            out.push(97);
            out.push(108);
            out.push(117);
            out.push(101);
            out.push(34);
            out.push(58);
            out.push(34);
            proof {
                assert(out@ =~= mid + val_sep());
            }
            push_escaped(&mut out, value);
            out.push(34);
            out.push(125);
            out.push(125);
            proof {
                assert(out@ =~= set_pre() + str_enc(key@) + val_sep() + str_enc(value@)
                    + rec_close());
            }
        },
        Command::Remove { key } => {
            out.push(123);
            out.push(34);
            out.push(82);
            out.push(101);
            out.push(109);
            out.push(111);
            out.push(118);
            out.push(101);
            out.push(34);
            out.push(58);
            out.push(123);
            out.push(34);
            out.push(107);
            out.push(101);
            out.push(121);
            out.push(34);
            out.push(58);
            out.push(34);
            proof {
                assert(out@ =~= rm_pre());
            }
            push_escaped(&mut out, key);
            out.push(34);
            out.push(125);
            out.push(125);
            proof {
                assert(out@ =~= rm_pre() + str_enc(key@) + rec_close());
            }
        },
    }
    out
}

/// The byte a named escape stands for.
pub open spec fn unesc_char(e: u8) -> u8 {
    if e == 34 {
        34u8
    } else if e == 92 {
        92u8
    } else if e == 47 {
        47u8
    } else if e == 98 {
        8u8
    } else if e == 102 {
        12u8
    } else if e == 110 {
        10u8
    } else if e == 114 {
        13u8
    } else {
        9u8
    }
}

/// Whether a byte opens one of the named escapes.
pub open spec fn is_named_esc(e: u8) -> bool {
    e == 34 || e == 92 || e == 47 || e == 98 || e == 102 || e == 110 || e == 114 || e == 116
}

/// Decodes an escaped string from the front of `s` up to and including its
/// closing quote: the decoded bytes and the number of bytes consumed.
/// Accepted escapes are the named ones and `\u00XX` for ASCII code
/// points, which covers everything the encoder emits; a code point that
/// would need several UTF-8 bytes is not accepted in escaped form.
pub open spec fn scan_str(s: Seq<u8>) -> Option<(Seq<u8>, nat)>
    decreases s.len(),
{
    if s.len() == 0 {
        None
    } else if s[0] == 34 {
        Some((Seq::empty(), 1nat))
    } else if s[0] == 92 {
        if s.len() < 2 {
            None
        } else {
            let e = s[1];
            if is_named_esc(e) {
                match scan_str(s.skip(2)) {
                    Some((d, n)) => Some((seq![unesc_char(e)] + d, (2 + n) as nat)),
                    None => None,
                }
            } else if e == 117 {
                if s.len() < 6 {
                    None
                } else if s[2] == 48 && s[3] == 48 && hex_val(s[4]) is Some && hex_val(s[5])
                    is Some && hex_val(s[4])->0 * 16 + hex_val(s[5])->0 < 128 {
                    let b = (hex_val(s[4])->0 * 16 + hex_val(s[5])->0) as u8;
                    match scan_str(s.skip(6)) {
                        Some((d, n)) => Some((seq![b] + d, (6 + n) as nat)),
                        None => None,
                    }
                } else {
                    None
                }
            } else {
                None
            }
        }
    } else if s[0] < 32 {
        None
    } else {
        match scan_str(s.skip(1)) {
            Some((d, n)) => Some((seq![s[0]] + d, (1 + n) as nat)),
            None => None,
        }
    }
}

/// A successful string scan consumes at least one byte and no more than the
/// input holds.
pub proof fn lemma_scan_str_len(s: Seq<u8>, d: Seq<u8>, n: nat)
    requires
        scan_str(s) == Some((d, n)),
    ensures
        1 <= n <= s.len(),
    decreases s.len(),
{
    if s.len() == 0 {
    } else if s[0] == 34 {
    } else if s[0] == 92 {
        if s.len() >= 2 {
            let e = s[1];
            if is_named_esc(e) {
                match scan_str(s.skip(2)) {
                    Some((d2, n2)) => lemma_scan_str_len(s.skip(2), d2, n2),
                    None => (),
                }
            } else if e == 117 && s.len() >= 6 {
                match scan_str(s.skip(6)) {
                    Some((d2, n2)) => lemma_scan_str_len(s.skip(6), d2, n2),
                    None => (),
                }
            }
        }
    } else if s[0] < 32 {
    } else {
        match scan_str(s.skip(1)) {
            Some((d2, n2)) => lemma_scan_str_len(s.skip(1), d2, n2),
            None => (),
        }
    }
}

/// Two sequences agreeing on their first `n` bytes agree at each index
/// below `n`.
proof fn lemma_agree_at(s1: Seq<u8>, s2: Seq<u8>, n: int, i: int)
    requires
        0 <= i < n,
        n <= s1.len(),
        n <= s2.len(),
        s2.take(n) == s1.take(n),
    ensures
        s2[i] == s1[i],
{
    assert(s1.take(n)[i] == s1[i]);
    assert(s2.take(n)[i] == s2[i]);
}

/// Both tails after dropping `c` consumed bytes still agree on the `n - c`
/// bytes that remain to be consumed.
proof fn lemma_agree_skip(s1: Seq<u8>, s2: Seq<u8>, n: int, c: int, m: int)
    requires
        0 <= c,
        0 <= m,
        c + m <= n,
        n <= s1.len(),
        n <= s2.len(),
        s2.take(n) == s1.take(n),
    ensures
        s2.skip(c).take(m) == s1.skip(c).take(m),
{
    assert(s2.skip(c).take(m) =~= s1.skip(c).take(m)) by {
        assert forall|i: int| 0 <= i < m implies s2.skip(c)[i] == s1.skip(c)[i] by {
            lemma_agree_at(s1, s2, n, i + c);
        }
    }
}

/// A string scan reads only the bytes it consumes: any sequence agreeing on
/// those bytes scans to the same result.
pub proof fn lemma_scan_str_prefix(s1: Seq<u8>, s2: Seq<u8>, d: Seq<u8>, n: nat)
    requires
        scan_str(s1) == Some((d, n)),
        s2.len() >= n,
        s2.take(n as int) == s1.take(n as int),
    ensures
        scan_str(s2) == Some((d, n)),
    decreases s1.len(),
{
    lemma_scan_str_len(s1, d, n);
    lemma_agree_at(s1, s2, n as int, 0);
    if s1[0] == 34 {
    } else if s1[0] == 92 {
        let e = s1[1];
        if is_named_esc(e) {
            match scan_str(s1.skip(2)) {
                Some((d2, n2)) => {
                    lemma_scan_str_len(s1.skip(2), d2, n2);
                    lemma_agree_at(s1, s2, n as int, 1);
                    lemma_agree_skip(s1, s2, n as int, 2, n2 as int);
                    lemma_scan_str_prefix(s1.skip(2), s2.skip(2), d2, n2);
                },
                None => {
                    assert(false);
                },
            }
        } else {
            match scan_str(s1.skip(6)) {
                Some((d2, n2)) => {
                    lemma_scan_str_len(s1.skip(6), d2, n2);
                    lemma_agree_at(s1, s2, n as int, 1);
                    lemma_agree_at(s1, s2, n as int, 2);
                    lemma_agree_at(s1, s2, n as int, 3);
                    lemma_agree_at(s1, s2, n as int, 4);
                    lemma_agree_at(s1, s2, n as int, 5);
                    lemma_agree_skip(s1, s2, n as int, 6, n2 as int);
                    lemma_scan_str_prefix(s1.skip(6), s2.skip(6), d2, n2);
                },
                None => {
                    assert(false);
                },
            }
        }
    } else {
        match scan_str(s1.skip(1)) {
            Some((d2, n2)) => {
                lemma_scan_str_len(s1.skip(1), d2, n2);
                lemma_agree_skip(s1, s2, n as int, 1, n2 as int);
                lemma_scan_str_prefix(s1.skip(1), s2.skip(1), d2, n2);
            },
            None => {
                assert(false);
            },
        }
    }
}

/// Scanning an encoded string followed by anything recovers the original
/// bytes and consumes exactly the encoding with its closing quote.
pub proof fn lemma_scan_enc(k: Seq<u8>, rest: Seq<u8>)
    ensures
        scan_str(str_enc(k) + rest) == Some((k, str_enc(k).len())),
    decreases k.len(),
{
    let s = str_enc(k) + rest;
    if k.len() == 0 {
        assert(s[0] == 34);
        assert(k =~= Seq::<u8>::empty());
    } else {
        let k0 = k[0];
        let kr = k.drop_first();
        let tail = str_enc(kr) + rest;
        assert(esc_bytes(k) == esc_byte(k0) + esc_bytes(kr));
        assert(forall|i: int| 0 <= i < esc_byte(k0).len() ==> s[i] == esc_byte(k0)[i]);
        lemma_scan_enc(kr, rest);
        if k0 == 34 || k0 == 92 {
            assert(s[0] == 92 && s[1] == k0);
            assert(s.skip(2) =~= tail);
            assert(seq![unesc_char(k0)] + kr =~= k);
        } else if k0 == 8 || k0 == 12 || k0 == 10 || k0 == 13 || k0 == 9 {
            assert(s[0] == 92 && is_named_esc(s[1]) && unesc_char(s[1]) == k0);
            assert(s.skip(2) =~= tail);
            assert(seq![k0] + kr =~= k);
        } else if k0 < 32 {
            assert(s[0] == 92 && s[1] == 117 && s[2] == 48 && s[3] == 48);
            assert(s[4] == hex_digit(k0 / 16) && s[5] == hex_digit(k0 % 16));
            assert(!is_named_esc(117u8));
            assert(hex_val(hex_digit(k0 / 16)) == Some((k0 / 16) as u8));
            assert(hex_val(hex_digit(k0 % 16)) == Some((k0 % 16) as u8));
            assert((k0 / 16) * 16 + k0 % 16 == k0) by (nonlinear_arith);
            assert(s.skip(6) =~= tail);
            assert(seq![k0] + kr =~= k);
        } else {
            assert(s[0] == k0);
            assert(s[0] != 34 && s[0] != 92 && !(s[0] < 32));
            assert(s.skip(1) =~= tail);
            assert(seq![k0] + kr =~= k);
        }
    }
}

/// Decodes one record from the front of `s`: the record and the number of
/// bytes consumed. `None` when `s` does not begin with a whole record.
pub open spec fn decode_rec(s: Seq<u8>) -> Option<(Record, nat)> {
    if s.len() >= 15 && s.take(15) == set_pre() {
        match scan_str(s.skip(15)) {
            Some((k, n1)) => {
                let p2 = 15 + n1 as int;
                if s.len() >= p2 + 10 && s.subrange(p2, p2 + 10) == val_sep() {
                    match scan_str(s.skip(p2 + 10)) {
                        Some((v, n2)) => {
                            let p3 = p2 + 10 + n2 as int;
                            if s.len() >= p3 + 2 && s.subrange(p3, p3 + 2) == rec_close() {
                                Some((Record::Put { key: k, value: v }, (p3 + 2) as nat))
                            } else {
                                None
                            }
                        },
                        None => None,
                    }
                } else {
                    None
                }
            },
            None => None,
        }
    } else if s.len() >= 18 && s.take(18) == rm_pre() {
        match scan_str(s.skip(18)) {
            Some((k, n1)) => {
                let p2 = 18 + n1 as int;
                if s.len() >= p2 + 2 && s.subrange(p2, p2 + 2) == rec_close() {
                    Some((Record::Remove { key: k }, (p2 + 2) as nat))
                } else {
                    None
                }
            },
            None => None,
        }
    } else {
        None
    }
}

/// A decoded record begins with an opening brace, consumes at least one
/// byte, and consumes no more than the input holds.
pub proof fn lemma_decode_rec_len(s: Seq<u8>, r: Record, n: nat)
    requires
        decode_rec(s) == Some((r, n)),
    ensures
        1 <= n <= s.len(),
        s[0] == 123,
{
    if s.len() >= 15 && s.take(15) == set_pre() {
        assert(s.take(15)[0] == s[0]);
    } else {
        assert(s.take(18)[0] == s[0]);
    }
}

/// A record decode reads only the bytes it consumes: any sequence agreeing
/// on those bytes decodes to the same record.
pub proof fn lemma_decode_rec_prefix(s1: Seq<u8>, s2: Seq<u8>, r: Record, n: nat)
    requires
        decode_rec(s1) == Some((r, n)),
        s2.len() >= n,
        s2.take(n as int) == s1.take(n as int),
    ensures
        decode_rec(s2) == Some((r, n)),
{
    lemma_decode_rec_len(s1, r, n);
    if s1.len() >= 15 && s1.take(15) == set_pre() {
        match scan_str(s1.skip(15)) {
            Some((k, n1)) => {
                lemma_scan_str_len(s1.skip(15), k, n1);
                let p2 = 15 + n1 as int;
                match scan_str(s1.skip(p2 + 10)) {
                    Some((v, n2)) => {
                        lemma_scan_str_len(s1.skip(p2 + 10), v, n2);
                        let p3 = p2 + 10 + n2 as int;
                        assert(n == p3 + 2);
                        assert(s2.take(15) =~= s1.take(15)) by {
                            assert forall|i: int| 0 <= i < 15 implies s2.take(15)[i] == s1.take(
                                15,
                            )[i] by {
                                lemma_agree_at(s1, s2, n as int, i);
                            }
                        }
                        lemma_agree_skip(s1, s2, n as int, 15, n1 as int);
                        lemma_scan_str_prefix(s1.skip(15), s2.skip(15), k, n1);
                        assert(s2.subrange(p2, p2 + 10) =~= s1.subrange(p2, p2 + 10)) by {
                            assert forall|i: int| 0 <= i < 10 implies #[trigger] s2.subrange(p2, p2 + 10)[i]
                                == s1.subrange(p2, p2 + 10)[i] by {
                                lemma_agree_at(s1, s2, n as int, p2 + i);
                            }
                        }
                        lemma_agree_skip(s1, s2, n as int, p2 + 10, n2 as int);
                        lemma_scan_str_prefix(s1.skip(p2 + 10), s2.skip(p2 + 10), v, n2);
                        assert(s2.subrange(p3, p3 + 2) =~= s1.subrange(p3, p3 + 2)) by {
                            assert forall|i: int| 0 <= i < 2 implies #[trigger] s2.subrange(p3, p3 + 2)[i]
                                == s1.subrange(p3, p3 + 2)[i] by {
                                lemma_agree_at(s1, s2, n as int, p3 + i);
                            }
                        }
                    },
                    None => {
                        assert(false);
                    },
                }
            },
            None => {
                assert(false);
            },
        }
    } else if s1.len() >= 18 && s1.take(18) == rm_pre() {
        match scan_str(s1.skip(18)) {
            Some((k, n1)) => {
                lemma_scan_str_len(s1.skip(18), k, n1);
                let p2 = 18 + n1 as int;
                assert(n == p2 + 2);
                assert(s2.take(18) =~= s1.take(18)) by {
                    assert forall|i: int| 0 <= i < 18 implies s2.take(18)[i] == s1.take(18)[i] by {
                        lemma_agree_at(s1, s2, n as int, i);
                    }
                }
                // The set branch is not taken for either sequence: the third
                // byte of a remove record is `R`, not `S`.
                assert(s1.take(18)[2] == s1[2]);
                assert(s1[2] == 82);
                if s2.len() >= 15 && s2.take(15) == set_pre() {
                    lemma_agree_at(s1, s2, n as int, 2);
                    assert(s2.take(15)[2] == s2[2]);
                    assert(false);
                }
                lemma_agree_skip(s1, s2, n as int, 18, n1 as int);
                lemma_scan_str_prefix(s1.skip(18), s2.skip(18), k, n1);
                assert(s2.subrange(p2, p2 + 2) =~= s1.subrange(p2, p2 + 2)) by {
                    assert forall|i: int| 0 <= i < 2 implies #[trigger] s2.subrange(p2, p2 + 2)[i]
                        == s1.subrange(p2, p2 + 2)[i] by {
                        lemma_agree_at(s1, s2, n as int, p2 + i);
                    }
                }
            },
            None => {
                assert(false);
            },
        }
    } else {
        assert(false);
    }
}

/// Decoding an encoding yields the record back and consumes exactly its
/// bytes, whatever follows: records are self-delimiting.
#[verifier::rlimit(40)]
pub proof fn lemma_decode_encoding(r: Record, rest: Seq<u8>)
    ensures
        decode_rec(encoding(r) + rest) == Some((r, encoding(r).len())),
{
    let s = encoding(r) + rest;
    match r {
        Record::Put { key, value } => {
            let b = str_enc(key);
            let d = str_enc(value);
            let tail1 = val_sep() + (d + (rec_close() + rest));
            let tail2 = rec_close() + rest;
            assert(s.take(15) =~= set_pre());
            assert(s.skip(15) =~= b + tail1);
            lemma_scan_enc(key, tail1);
            lemma_scan_str_prefix(b + tail1, s.skip(15), key, b.len());
            let p2 = 15 + b.len() as int;
            assert(s.subrange(p2, p2 + 10) =~= val_sep());
            assert(s.skip(p2 + 10) =~= d + tail2);
            lemma_scan_enc(value, tail2);
            lemma_scan_str_prefix(d + tail2, s.skip(p2 + 10), value, d.len());
            let p3 = p2 + 10 + d.len() as int;
            assert(s.subrange(p3, p3 + 2) =~= rec_close());
            assert(encoding(r).len() == p3 + 2);
        },
        Record::Remove { key } => {
            let b = str_enc(key);
            let tail1 = rec_close() + rest;
            assert(s[2] == 82);
            if s.len() >= 15 && s.take(15) == set_pre() {
                assert(s.take(15)[2] == s[2]);
                assert(false);
            }
            assert(s.take(18) =~= rm_pre());
            assert(s.skip(18) =~= b + tail1);
            lemma_scan_enc(key, tail1);
            lemma_scan_str_prefix(b + tail1, s.skip(18), key, b.len());
            let p2 = 18 + b.len() as int;
            assert(s.subrange(p2, p2 + 2) =~= rec_close());
            assert(encoding(r).len() == p2 + 2);
        },
    }
}

/// Rejoins a partial scan: `pre` already decoded and `consumed` bytes read,
/// with the rest of the scan still to come.
pub open spec fn scan_cont(pre: Seq<u8>, consumed: nat, rest: Option<(Seq<u8>, nat)>) -> Option<
    (Seq<u8>, nat),
> {
    match rest {
        Some((d, n)) => Some((pre + d, (consumed + n) as nat)),
        None => None,
    }
}

/// The numeric value of an ASCII hexadecimal digit, as executable code.
fn hex_val_exec(b: u8) -> (r: Option<u8>)
    ensures
        r == hex_val(b),
{
    if 48 <= b && b <= 57 {
        Some(b - 48)
    } else if 97 <= b && b <= 102 {
        Some(b - 87)
    } else if 65 <= b && b <= 70 {
        Some(b - 55)
    } else {
        None
    }
}

/// Decodes an escaped string in `data` starting at `from` (just after the
/// opening quote): the decoded bytes and the count of bytes consumed,
/// closing quote included.
fn scan_string(data: &Vec<u8>, from: usize) -> (r: Option<(Vec<u8>, usize)>)
    requires
        from <= data@.len(),
    ensures
        (match r {
            Some((d, n)) => scan_str(data@.skip(from as int)) == Some((d@, n as nat)) && from + n
                <= data@.len(),
            None => scan_str(data@.skip(from as int)) is None,
        }),
{
    let mut acc: Vec<u8> = Vec::new();
    let mut i: usize = from;
    loop
        invariant
            from <= i <= data@.len(),
            scan_str(data@.skip(from as int)) == scan_cont(
                acc@,
                (i - from) as nat,
                scan_str(data@.skip(i as int)),
            ),
        decreases data@.len() - i,
    {
        let ghost s = data@.skip(i as int);
        if i == data.len() {
            return None;
        }
        let b = data[i];
        assert(s[0] == b);
        if b == 34 {
            proof {
                assert(acc@ + Seq::<u8>::empty() =~= acc@);
            }
            return Some((acc, i + 1 - from));
        } else if b == 92 {
            if i + 1 == data.len() {
                return None;
            }
            let e = data[i + 1];
            assert(s[1] == e);
            if e == 34 || e == 92 || e == 47 || e == 98 || e == 102 || e == 110 || e == 114 || e
                == 116 {
            let out: u8 = if e == 34 {
                34
            } else if e == 92 {
                92
            } else if e == 47 {
                47
            } else if e == 98 {
                8
            } else if e == 102 {
                12
            } else if e == 110 {
                10
            } else if e == 114 {
                13
            } else {
                9
            };
            proof {
                assert(out == unesc_char(e));
                assert(s.skip(2) =~= data@.skip(i + 2));
            }
            let ghost acc0 = acc@;
            acc.push(out);
            proof {
                assert forall|rest: Option<(Seq<u8>, nat)>|
                    scan_cont(acc0, (i - from) as nat, scan_cont(seq![out], 2nat, rest))
                        == #[trigger] scan_cont(acc0.push(out), (i + 2 - from) as nat, rest) by {
                    match rest {
                        Some((d, n)) => {
                            assert(acc0 + (seq![out] + d) =~= acc0.push(out) + d);
                        },
                        None => {},
                    }
                }
            }
            i = i + 2;
            } else if e == 117 {
                if data.len() - i < 6 {
                    return None;
                }
                let c2 = data[i + 2];
                let c3 = data[i + 3];
                let h1 = hex_val_exec(data[i + 4]);
                let h2 = hex_val_exec(data[i + 5]);
                assert(s[2] == c2 && s[3] == c3);
                assert(s[4] == data@[i + 4] && s[5] == data@[i + 5]);
                if c2 == 48 && c3 == 48 && h1.is_some() && h2.is_some() && h1.unwrap() * 16
                    + h2.unwrap() < 128 {
                    let out: u8 = h1.unwrap() * 16 + h2.unwrap();
                    proof {
                        assert(s.skip(6) =~= data@.skip(i + 6));
                    }
                    let ghost acc0 = acc@;
                    acc.push(out);
                    proof {
                        assert forall|rest: Option<(Seq<u8>, nat)>|
                            scan_cont(acc0, (i - from) as nat, scan_cont(seq![out], 6nat, rest))
                                == #[trigger] scan_cont(
                                acc0.push(out),
                                (i + 6 - from) as nat,
                                rest,
                            ) by {
                            match rest {
                                Some((d, n)) => {
                                    assert(acc0 + (seq![out] + d) =~= acc0.push(out) + d);
                                },
                                None => {},
                            }
                        }
                    }
                    i = i + 6;
                } else {
                    return None;
                }
            } else {
                return None;
            }
        } else if b < 32 {
            return None;
        } else {
            proof {
                assert(s.skip(1) =~= data@.skip(i + 1));
            }
            let ghost acc0 = acc@;
            acc.push(b);
            proof {
                assert forall|rest: Option<(Seq<u8>, nat)>|
                    scan_cont(acc0, (i - from) as nat, scan_cont(seq![b], 1nat, rest))
                        == #[trigger] scan_cont(acc0.push(b), (i + 1 - from) as nat, rest) by {
                    match rest {
                        Some((d, n)) => {
                            assert(acc0 + (seq![b] + d) =~= acc0.push(b) + d);
                        },
                        None => {},
                    }
                }
            }
            i = i + 1;
        }
    }
}

/// Whether the bytes of `{"Set":{"key":"` stand at `at` in `data`.
fn has_set_pre(data: &Vec<u8>, at: usize) -> (b: bool)
    requires
        at <= data@.len(),
    ensures
        b == (at + 15 <= data@.len() && data@.subrange(at as int, at + 15) == set_pre()),
{
    if data.len() - at < 15 {
        return false;
    }
    let b = data[at] == 123 && data[at + 1] == 34 && data[at + 2] == 83 && data[at + 3] == 101
        && data[at + 4] == 116 && data[at + 5] == 34 && data[at + 6] == 58 && data[at + 7] == 123
        && data[at + 8] == 34 && data[at + 9] == 107 && data[at + 10] == 101 && data[at + 11]
        == 121 && data[at + 12] == 34 && data[at + 13] == 58 && data[at + 14] == 34;
    proof {
        if b {
            assert(data@.subrange(at as int, at + 15) =~= set_pre());
        } else {
            if data@.subrange(at as int, at + 15) == set_pre() {
                assert(forall|i: int|
                    0 <= i < 15 ==> data@[at + i] == #[trigger] data@.subrange(at as int, at + 15)[i]);
                assert(false);
            }
        }
    }
    b
}

/// Whether the bytes of `{"Remove":{"key":"` stand at `at` in `data`.
fn has_rm_pre(data: &Vec<u8>, at: usize) -> (b: bool)
    requires
        at <= data@.len(),
    ensures
        b == (at + 18 <= data@.len() && data@.subrange(at as int, at + 18) == rm_pre()),
{
    if data.len() - at < 18 {
        return false;
    }
    let b = data[at] == 123 && data[at + 1] == 34 && data[at + 2] == 82 && data[at + 3] == 101
        && data[at + 4] == 109 && data[at + 5] == 111 && data[at + 6] == 118 && data[at + 7]
        == 101 && data[at + 8] == 34 && data[at + 9] == 58 && data[at + 10] == 123 && data[at + 11]
        == 34 && data[at + 12] == 107 && data[at + 13] == 101 && data[at + 14] == 121 && data[at
        + 15] == 34 && data[at + 16] == 58 && data[at + 17] == 34;
    proof {
        if b {
            assert(data@.subrange(at as int, at + 18) =~= rm_pre());
        } else {
            if data@.subrange(at as int, at + 18) == rm_pre() {
                assert(forall|i: int|
                    0 <= i < 18 ==> data@[at + i] == #[trigger] data@.subrange(at as int, at + 18)[i]);
                assert(false);
            }
        }
    }
    b
}

/// Whether the bytes of `,"value":"` stand at `at` in `data`.
fn has_val_sep(data: &Vec<u8>, at: usize) -> (b: bool)
    requires
        at <= data@.len(),
    ensures
        b == (at + 10 <= data@.len() && data@.subrange(at as int, at + 10) == val_sep()),
{
    if data.len() - at < 10 {
        return false;
    }
    let b = data[at] == 44 && data[at + 1] == 34 && data[at + 2] == 118 && data[at + 3] == 97
        && data[at + 4] == 108 && data[at + 5] == 117 && data[at + 6] == 101 && data[at + 7] == 34
        && data[at + 8] == 58 && data[at + 9] == 34;
    proof {
        if b {
            assert(data@.subrange(at as int, at + 10) =~= val_sep());
        } else {
            if data@.subrange(at as int, at + 10) == val_sep() {
                assert(forall|i: int|
                    0 <= i < 10 ==> data@[at + i] == #[trigger] data@.subrange(at as int, at + 10)[i]);
                assert(false);
            }
        }
    }
    b
}

/// Whether the bytes of `}}` stand at `at` in `data`.
fn has_close(data: &Vec<u8>, at: usize) -> (b: bool)
    requires
        at <= data@.len(),
    ensures
        b == (at + 2 <= data@.len() && data@.subrange(at as int, at + 2) == rec_close()),
{
    if data.len() - at < 2 {
        return false;
    }
    let b = data[at] == 125 && data[at + 1] == 125;
    proof {
        if b {
            assert(data@.subrange(at as int, at + 2) =~= rec_close());
        } else {
            if data@.subrange(at as int, at + 2) == rec_close() {
                assert(forall|i: int|
                    0 <= i < 2 ==> data@[at + i] == #[trigger] data@.subrange(at as int, at + 2)[i]);
                assert(false);
            }
        }
    }
    b
}

/// Decodes one record in `data` starting at `from`: the record and the
/// count of bytes it occupies. The decoder reads no byte past the record's
/// end.
pub fn decode_record(data: &Vec<u8>, from: usize) -> (r: Option<(Command, usize)>)
    requires
        from <= data@.len(),
    ensures
        (match r {
            Some((cmd, n)) => decode_rec(data@.skip(from as int)) == Some((cmd@, n as nat)) && from
                + n <= data@.len(),
            None => decode_rec(data@.skip(from as int)) is None,
        }),
{
    let ghost s = data@.skip(from as int);
    let dlen = data.len();
    assert(dlen == data@.len());
    proof {
        if from + 15 <= data@.len() {
            assert(s.take(15) =~= data@.subrange(from as int, from + 15));
        }
        if from + 18 <= data@.len() {
            assert(s.take(18) =~= data@.subrange(from as int, from + 18));
        }
    }
    if has_set_pre(data, from) {
        proof {
            assert(s.skip(15) =~= data@.skip(from + 15));
        }
        match scan_string(data, from + 15) {
            Some((k, n1)) => {
                let p2 = from + 15 + n1;
                proof {
                    if p2 + 10 <= data@.len() {
                        assert(s.subrange(15 + n1 as int, 15 + n1 + 10) =~= data@.subrange(
                            p2 as int,
                            p2 + 10,
                        ));
                    }
                }
                if has_val_sep(data, p2) {
                    proof {
                        assert(s.skip(15 + n1 + 10) =~= data@.skip(p2 + 10));
                    }
                    match scan_string(data, p2 + 10) {
                        Some((v, n2)) => {
                            let p3 = p2 + 10 + n2;
                            proof {
                                if p3 + 2 <= data@.len() {
                                    assert(s.subrange(
                                        15 + n1 + 10 + n2 as int,
                                        15 + n1 + 10 + n2 + 2,
                                    ) =~= data@.subrange(p3 as int, p3 + 2));
                                }
                            }
                            if has_close(data, p3) {
                                Some((Command::Put { key: k, value: v }, p3 + 2 - from))
                            } else {
                                None
                            }
                        },
                        None => None,
                    }
                } else {
                    None
                }
            },
            None => None,
        }
    } else if has_rm_pre(data, from) {
        proof {
            assert(s.skip(18) =~= data@.skip(from + 18));
        }
        match scan_string(data, from + 18) {
            Some((k, n1)) => {
                let p2 = from + 18 + n1;
                proof {
                    if p2 + 2 <= data@.len() {
                        assert(s.subrange(18 + n1 as int, 18 + n1 + 2) =~= data@.subrange(
                            p2 as int,
                            p2 + 2,
                        ));
                    }
                }
                if has_close(data, p2) {
                    Some((Command::Remove { key: k }, p2 + 2 - from))
                } else {
                    None
                }
            },
            None => None,
        }
    } else {
        None
    }
}

} // verus!
