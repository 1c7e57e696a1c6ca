//! Persistent cache for compiled SynthDef bytecode.
//!
//! One `.adc` (audion-define-cache) file sits next to each `.au` source file that contains
//! `define` blocks; the defines of one source file share it. A file is read at most once per
//! run, then kept in memory.
//!
//! Binary format:
//!   magic      : [u8; 4]  = b"ADC1"
//!   entry_count: u32 (little-endian)
//!   per entry  :
//!     name_len : u16le
//!     name     : [u8; name_len]   (UTF-8)
//!     hash     : u64le            (AST hash)
//!     data_len : u32le
//!     data     : [u8; data_len]   (raw .scsyndef bytes)

use vstd::prelude::*;
use vstd::string::StringSliceAdditionalSpecFns;
use vstd::utf8::valid_utf8;
use vstd::utf8::decode_utf8;
use vstd::utf8::encode_utf8;
use vstd::utf8::encode_utf8_valid_utf8;
use vstd::utf8::encode_utf8_decode_utf8;
use crate::text::str_eq;

verus! {

// ---------------------------------------------------------------------------
// Little-endian numbers
// ---------------------------------------------------------------------------

pub open spec fn pow256(n: nat) -> nat
    decreases n,
{
    if n == 0 { 1 } else { 256 * pow256((n - 1) as nat) }
}

/// The `n` little-endian bytes of `v` (taken modulo 256^n).
pub open spec fn le_bytes(v: nat, n: nat) -> Seq<u8>
    decreases n,
{
    if n == 0 { Seq::empty() } else { seq![(v % 256) as u8] + le_bytes(v / 256, (n - 1) as nat) }
}

/// The number that little-endian bytes encode.
pub open spec fn le_value(b: Seq<u8>) -> nat
    decreases b.len(),
{
    if b.len() == 0 { 0 } else { b[0] as nat + 256 * le_value(b.drop_first()) }
}

proof fn lemma_le_roundtrip(v: nat, n: nat)
    requires v < pow256(n),
    ensures
        le_bytes(v, n).len() == n,
        le_value(le_bytes(v, n)) == v,
    decreases n,
{
    if n > 0 {
        assert(v / 256 < pow256((n - 1) as nat));
        lemma_le_roundtrip(v / 256, (n - 1) as nat);
        assert(le_bytes(v, n).drop_first() =~= le_bytes(v / 256, (n - 1) as nat));
    }
}

proof fn lemma_le_value_bound(b: Seq<u8>)
    ensures le_value(b) < pow256(b.len()),
    decreases b.len(),
{
    if b.len() > 0 {
        lemma_le_value_bound(b.drop_first());
    }
}

/// Reads the little-endian number of `n` bytes at `*pos`, moving `*pos` past it;
/// `None` (and `*pos` unchanged) where fewer than `n` bytes are left.
fn read_le(data: &[u8], pos: &mut usize, n: usize) -> (r: Option<u64>)
    requires
        *old(pos) <= data@.len(),
        n <= 8,
    ensures
        *old(pos) + n > data@.len() ==> r is None && *final(pos) == *old(pos),
        *old(pos) + n <= data@.len() ==> r == Some(le_value(data@.subrange(*old(pos) as int, *old(pos) + n)) as u64)
            && *final(pos) == *old(pos) + n,
{
    if data.len() - *pos < n {
        return None;
    }
    let start = *pos;
    let len = data.len();
    let ghost b = data@.subrange(start as int, start + n);
    let mut v: u64 = 0;
    let mut k: usize = n;
    proof {
        lemma_le_value_bound(b);
        lemma_pow256_mono(0, 8);
        assert(b.skip(n as int) =~= Seq::<u8>::empty());
    }
    while k > 0
        invariant
            b == data@.subrange(start as int, start + n),
            start + n <= data@.len(),
            len == data@.len(),
            k <= n <= 8,
            v == le_value(b.skip(k as int)),
            le_value(b.skip(k as int)) < pow256((n - k) as nat),
            pow256((n - k) as nat) <= pow256(8),
        decreases k,
    {
        k -= 1;
        proof {
            assert(b.skip(k as int).drop_first() =~= b.skip(k + 1));
            assert(b.skip(k as int)[0] == data@[start + k]);
            lemma_le_value_bound(b.skip(k as int));
            lemma_pow256_mono((n - k) as nat, 8);
            lemma_pow256_values();
        }
        v = v * 256 + data[start + k] as u64;
    }
    assert(b.skip(0) =~= b);
    *pos = start + n;
    Some(v)
}

proof fn lemma_pow256_values()
    ensures
        pow256(2) == 0x1_0000,
        pow256(4) == 0x1_0000_0000,
        pow256(8) == 0x1_0000_0000_0000_0000,
{
    assert(pow256(0) == 1);
    assert(pow256(1) == 0x100);
    assert(pow256(2) == 0x1_0000);
    assert(pow256(3) == 0x100_0000);
    assert(pow256(4) == 0x1_0000_0000);
    assert(pow256(5) == 0x100_0000_0000);
    assert(pow256(6) == 0x1_0000_0000_0000);
    assert(pow256(7) == 0x100_0000_0000_0000);
    assert(pow256(8) == 0x1_0000_0000_0000_0000);
}

proof fn lemma_pow256_mono(a: nat, b: nat)
    requires a <= b,
    ensures pow256(a) <= pow256(b),
    decreases b,
{
    if a < b {
        lemma_pow256_mono(a, (b - 1) as nat);
    }
}

/// Reads a little-endian `u16` at `*pos`.
fn read_u16(data: &[u8], pos: &mut usize) -> (r: Option<u16>)
    requires *old(pos) <= data@.len(),
    ensures
        *old(pos) + 2 > data@.len() ==> r is None && *final(pos) == *old(pos),
        *old(pos) + 2 <= data@.len() ==> (r matches Some(v) && v as nat == le_value(data@.subrange(*old(pos) as int, *old(pos) + 2)))
            && *final(pos) == *old(pos) + 2,
{
    match read_le(data, pos, 2) {
        Some(v) => {
            proof {
                let b = data@.subrange(*old(pos) as int, *old(pos) + 2);
                lemma_le_value_bound(b);
                lemma_pow256_values();
            }
            Some(v as u16)
        },
        None => None,
    }
}

/// Reads a little-endian `u32` at `*pos`.
fn read_u32(data: &[u8], pos: &mut usize) -> (r: Option<u32>)
    requires *old(pos) <= data@.len(),
    ensures
        *old(pos) + 4 > data@.len() ==> r is None && *final(pos) == *old(pos),
        *old(pos) + 4 <= data@.len() ==> (r matches Some(v) && v as nat == le_value(data@.subrange(*old(pos) as int, *old(pos) + 4)))
            && *final(pos) == *old(pos) + 4,
{
    match read_le(data, pos, 4) {
        Some(v) => {
            proof {
                let b = data@.subrange(*old(pos) as int, *old(pos) + 4);
                lemma_le_value_bound(b);
                lemma_pow256_values();
            }
            Some(v as u32)
        },
        None => None,
    }
}

/// Reads a little-endian `u64` at `*pos`.
fn read_u64(data: &[u8], pos: &mut usize) -> (r: Option<u64>)
    requires *old(pos) <= data@.len(),
    ensures
        *old(pos) + 8 > data@.len() ==> r is None && *final(pos) == *old(pos),
        *old(pos) + 8 <= data@.len() ==> (r matches Some(v) && v as nat == le_value(data@.subrange(*old(pos) as int, *old(pos) + 8)))
            && *final(pos) == *old(pos) + 8,
{
    proof {
        if *old(pos) + 8 <= data@.len() {
            lemma_le_value_bound(data@.subrange(*old(pos) as int, *old(pos) + 8));
            lemma_pow256_values();
        }
    }
    read_le(data, pos, 8)
}

/// Appends the `n` little-endian bytes of `v`.
fn push_le(buf: &mut Vec<u8>, v: u64, n: usize)
    ensures final(buf)@ == old(buf)@ + le_bytes(v as nat, n as nat),
{
    let ghost b0 = buf@;
    let mut x: u64 = v;
    let mut k: usize = 0;
    while k < n
        invariant
            k <= n,
            buf@ + le_bytes(x as nat, (n - k) as nat) == b0 + le_bytes(v as nat, n as nat),
        decreases n - k,
    {
        let ghost before = buf@;
        buf.push((x % 256) as u8);
        proof {
            assert(le_bytes(x as nat, (n - k) as nat) == seq![(x % 256) as u8] + le_bytes((x / 256) as nat, (n - k - 1) as nat));
            assert(buf@ + le_bytes((x / 256) as nat, (n - k - 1) as nat) =~= before + le_bytes(x as nat, (n - k) as nat));
        }
        x = x / 256;
        k += 1;
    }
    assert(buf@ =~= b0 + le_bytes(v as nat, n as nat));
}


// ---------------------------------------------------------------------------
// The .adc format
// ---------------------------------------------------------------------------

/// One cached define: its name, the hash of its source and its compiled bytes.
pub struct AdcEntry {
    pub name: String,
    pub hash: u64,
    pub data: Vec<u8>,
}

pub open spec fn entry_view(e: AdcEntry) -> (Seq<char>, u64, Seq<u8>) {
    (e.name@, e.hash, e.data@)
}

pub open spec fn entries_view(es: Seq<AdcEntry>) -> Seq<(Seq<char>, u64, Seq<u8>)> {
    es.map_values(|e: AdcEntry| entry_view(e))
}

/// The four bytes `ADC1` that open a cache file.
pub open spec fn adc_magic() -> Seq<u8> {
    seq![65u8, 68u8, 67u8, 49u8]
}

/// One entry as the file stores it; the lengths are written in 16 and 32 bits.
pub open spec fn encode_entry(e: (Seq<char>, u64, Seq<u8>)) -> Seq<u8> {
    let nb = encode_utf8(e.0);
    le_bytes(nb.len() % 0x1_0000, 2) + nb + le_bytes(e.1 as nat, 8) + le_bytes(e.2.len() % 0x1_0000_0000, 4) + e.2
}

pub open spec fn encode_entries(es: Seq<(Seq<char>, u64, Seq<u8>)>) -> Seq<u8>
    decreases es.len(),
{
    if es.len() == 0 { Seq::empty() } else { encode_entry(es[0]) + encode_entries(es.drop_first()) }
}

/// The bytes of a cache file holding `es`, in order.
pub open spec fn adc_file(es: Seq<(Seq<char>, u64, Seq<u8>)>) -> Seq<u8> {
    adc_magic() + le_bytes(es.len() % 0x1_0000_0000, 4) + encode_entries(es)
}

/// The entry at `pos` and the position after it, if a whole well-formed entry is there.
pub open spec fn decode_entry(data: Seq<u8>, pos: nat) -> Option<((Seq<char>, u64, Seq<u8>), nat)> {
    if pos + 2 > data.len() {
        None
    } else {
        let name_len = le_value(data.subrange(pos as int, pos + 2int));
        let p1 = pos + 2;
        if p1 + name_len > data.len() {
            None
        } else {
            let nb = data.subrange(p1 as int, (p1 + name_len) as int);
            let p2 = p1 + name_len;
            if !valid_utf8(nb) || p2 + 8 > data.len() {
                None
            } else {
                let hash = le_value(data.subrange(p2 as int, p2 + 8int));
                let p3 = p2 + 8;
                if p3 + 4 > data.len() {
                    None
                } else {
                    let data_len = le_value(data.subrange(p3 as int, p3 + 4int));
                    let p4 = p3 + 4;
                    if p4 + data_len > data.len() {
                        None
                    } else {
                        Some(((decode_utf8(nb), hash as u64, data.subrange(p4 as int, (p4 + data_len) as int)), (p4 + data_len) as nat))
                    }
                }
            }
        }
    }
}

/// `count` entries from `pos` on and the position after them, if they are all well formed.
pub open spec fn decode_entries(data: Seq<u8>, pos: nat, count: nat) -> Option<(Seq<(Seq<char>, u64, Seq<u8>)>, nat)>
    decreases count,
{
    if count == 0 {
        Some((Seq::empty(), pos))
    } else {
        match decode_entry(data, pos) {
            None => None,
            Some((e, next)) => match decode_entries(data, next, (count - 1) as nat) {
                None => None,
                Some((rest, end)) => Some((seq![e] + rest, end)),
            },
        }
    }
}

/// The entries of a cache file, in file order, if it is well formed (bytes after the last
/// entry are ignored).
pub open spec fn decode_adc(data: Seq<u8>) -> Option<Seq<(Seq<char>, u64, Seq<u8>)>> {
    if data.len() < 8 || data.subrange(0, 4) != adc_magic() {
        None
    } else {
        match decode_entries(data, 8, le_value(data.subrange(4, 8))) {
            Some((es, _)) => Some(es),
            None => None,
        }
    }
}

/// Calls `std::str::from_utf8`: text exactly when the bytes are valid UTF-8, and then the
/// characters they encode.
#[verifier::external_body]
fn utf8_text(bytes: &[u8]) -> (r: Option<String>)
    ensures
        match r {
            Some(s) => valid_utf8(bytes@) && s@ == decode_utf8(bytes@),
            None => !valid_utf8(bytes@),
        },
{
    match std::str::from_utf8(bytes) {
        Ok(s) => Some(s.to_string()),
        Err(_) => None,
    }
}

fn copy_range(data: &[u8], start: usize, end: usize) -> (r: Vec<u8>)
    requires start <= end <= data@.len(),
    ensures r@ == data@.subrange(start as int, end as int),
{
    let mut r: Vec<u8> = Vec::new();
    let mut i: usize = start;
    while i < end
        invariant
            start <= i <= end <= data@.len(),
            r@ == data@.subrange(start as int, i as int),
        decreases end - i,
    {
        r.push(data[i]);
        i += 1;
        assert(r@ =~= data@.subrange(start as int, i as int));
    }
    r
}

fn read_entry(data: &[u8], pos: &mut usize) -> (r: Option<AdcEntry>)
    requires *old(pos) <= data@.len(),
    ensures
        *final(pos) <= data@.len(),
        match decode_entry(data@, *old(pos) as nat) {
            None => r is None,
            Some((e, next)) => r matches Some(x) && entry_view(x) == e && *final(pos) == next,
        },
{
    let ghost p0 = *pos as nat;
    let name_len = match read_u16(data, pos) { Some(v) => v as usize, None => return None };
    assert(name_len as nat == le_value(data@.subrange(p0 as int, p0 + 2int)));
    if data.len() - *pos < name_len {
        return None;
    }
    let p1 = *pos;
    let nb = copy_range(data, p1, p1 + name_len);
    assert(nb@ == data@.subrange(p1 as int, (p1 + name_len) as int));
    let name = match utf8_text(nb.as_slice()) {
        Some(s) => s,
        None => {
            assert(!valid_utf8(data@.subrange(p1 as int, (p1 + name_len) as int)));
            return None;
        },
    };
    *pos = p1 + name_len;
    let hash = match read_u64(data, pos) { Some(h) => h, None => return None };
    let data_len = match read_u32(data, pos) { Some(v) => v as usize, None => return None };
    if data.len() - *pos < data_len {
        return None;
    }
    let p4 = *pos;
    let bytes = copy_range(data, p4, p4 + data_len);
    *pos = p4 + data_len;
    Some(AdcEntry { name, hash, data: bytes })
}

/// Reads the entries of a cache file, in file order; `None` where the file is not a
/// well-formed cache file.
pub fn read_adc(data: &[u8]) -> (r: Option<Vec<AdcEntry>>)
    ensures
        match decode_adc(data@) {
            None => r is None,
            Some(es) => r matches Some(v) && entries_view(v@) == es,
        },
{
    if data.len() < 8 || data[0] != 65 || data[1] != 68 || data[2] != 67 || data[3] != 49 {
        proof {
            if data@.len() >= 8 {
                assert(data@.subrange(0, 4)[0] == data@[0]);
                assert(data@.subrange(0, 4)[1] == data@[1]);
                assert(data@.subrange(0, 4)[2] == data@[2]);
                assert(data@.subrange(0, 4)[3] == data@[3]);
            }
        }
        return None;
    }
    assert(data@.subrange(0, 4) =~= adc_magic());
    let mut pos: usize = 4;
    let count = match read_u32(data, &mut pos) { Some(c) => c, None => return None };
    let ghost total = count as nat;
    let mut out: Vec<AdcEntry> = Vec::new();
    let mut k: u32 = 0;
    while k < count
        invariant
            k <= count,
            pos <= data@.len(),
            total == le_value(data@.subrange(4, 8)),
            total == count,
            decode_entries(data@, 8, total) == match decode_entries(data@, pos as nat, (count - k) as nat) {
                None => None,
                Some((rest, end)) => Some((entries_view(out@) + rest, end)),
            },
        decreases count - k,
    {
        let ghost p0 = pos as nat;
        match read_entry(data, &mut pos) {
            Some(e) => {
                let ghost ev = entry_view(e);
                proof {
                    assert(entries_view(out@.push(e)) =~= entries_view(out@).push(ev));
                    match decode_entries(data@, pos as nat, (count - k - 1) as nat) {
                        None => {},
                        Some((rest, end)) => {
                            assert(entries_view(out@) + (seq![ev] + rest) =~= entries_view(out@).push(ev) + rest);
                        },
                    }
                }
                out.push(e);
            },
            None => return None,
        }
        k += 1;
    }
    assert(entries_view(out@) + Seq::empty() =~= entries_view(out@));
    Some(out)
}

fn push_bytes(buf: &mut Vec<u8>, bytes: &[u8])
    ensures final(buf)@ == old(buf)@ + bytes@,
{
    let ghost b0 = buf@;
    let mut i: usize = 0;
    while i < bytes.len()
        invariant
            i <= bytes@.len(),
            buf@ == b0 + bytes@.take(i as int),
        decreases bytes.len() - i,
    {
        buf.push(bytes[i]);
        i += 1;
        assert(buf@ =~= b0 + bytes@.take(i as int));
    }
    assert(bytes@.take(bytes@.len() as int) =~= bytes@);
}

proof fn lemma_encode_entries_push(es: Seq<(Seq<char>, u64, Seq<u8>)>, e: (Seq<char>, u64, Seq<u8>))
    ensures encode_entries(es.push(e)) == encode_entries(es) + encode_entry(e),
    decreases es.len(),
{
    assert(es.push(e)[0] == if es.len() == 0 { e } else { es[0] });
    if es.len() == 0 {
        assert(es.push(e).drop_first() =~= Seq::<(Seq<char>, u64, Seq<u8>)>::empty());
        assert(encode_entries(Seq::<(Seq<char>, u64, Seq<u8>)>::empty()) == Seq::<u8>::empty());
        assert(encode_entries(es.push(e)) =~= encode_entries(es) + encode_entry(e));
    } else {
        lemma_encode_entries_push(es.drop_first(), e);
        assert(es.push(e).drop_first() =~= es.drop_first().push(e));
        assert(encode_entries(es.push(e)) =~= encode_entries(es) + encode_entry(e));
    }
}

/// The bytes of the cache file that holds `entries`, in order.
pub fn write_adc(entries: &[AdcEntry]) -> (r: Vec<u8>)
    ensures r@ == adc_file(entries_view(entries@)),
{
    let mut buf: Vec<u8> = Vec::new();
    buf.push(65u8);
    buf.push(68u8);
    buf.push(67u8);
    buf.push(49u8);
    let count: u32 = ((entries.len() as u64) % 0x1_0000_0000u64) as u32;
    push_le(&mut buf, count as u64, 4);
    let ghost head = buf@;
    assert(head =~= adc_magic() + le_bytes(entries@.len() % 0x1_0000_0000, 4));
    let mut i: usize = 0;
    while i < entries.len()
        invariant
            i <= entries@.len(),
            buf@ == head + encode_entries(entries_view(entries@.take(i as int))),
        decreases entries.len() - i,
    {
        let e = &entries[i];
        let ghost before = buf@;
        let nb = e.name.as_str().as_bytes();
        let name_len: u16 = ((nb.len() as u64) % 0x1_0000u64) as u16;
        push_le(&mut buf, name_len as u64, 2);
        push_bytes(&mut buf, nb);
        push_le(&mut buf, e.hash, 8);
        let data_len: u32 = ((e.data.len() as u64) % 0x1_0000_0000u64) as u32;
        push_le(&mut buf, data_len as u64, 4);
        push_bytes(&mut buf, e.data.as_slice());
        proof {
            assert(buf@ =~= before + encode_entry(entry_view(*e)));
            assert(entries_view(entries@.take(i + 1)) =~= entries_view(entries@.take(i as int)).push(entry_view(*e)));
            lemma_encode_entries_push(entries_view(entries@.take(i as int)), entry_view(*e));
        }
        i += 1;
    }
    assert(entries@.take(entries@.len() as int) =~= entries@);
    buf
}


// ---------------------------------------------------------------------------
// Reading back what was written
// ---------------------------------------------------------------------------

/// Whether an entry can be written faithfully: a name of at most 65535 UTF-8 bytes and
/// compiled data of at most 2^32 - 1 bytes.
pub open spec fn entry_fits(e: (Seq<char>, u64, Seq<u8>)) -> bool {
    encode_utf8(e.0).len() < 0x1_0000 && e.2.len() < 0x1_0000_0000
}

pub open spec fn entries_fit(es: Seq<(Seq<char>, u64, Seq<u8>)>) -> bool {
    forall|i: int| 0 <= i < es.len() ==> entry_fits(#[trigger] es[i])
}

proof fn lemma_decode_entry_at(pre: Seq<u8>, e: (Seq<char>, u64, Seq<u8>), post: Seq<u8>)
    requires entry_fits(e),
    ensures
        decode_entry(pre + encode_entry(e) + post, pre.len()) == Some((e, pre.len() + encode_entry(e).len())),
{
    let nb = encode_utf8(e.0);
    let a = le_bytes(nb.len() % 0x1_0000, 2);
    let h = le_bytes(e.1 as nat, 8);
    let l = le_bytes(e.2.len() % 0x1_0000_0000, 4);
    let d = pre + encode_entry(e) + post;
    let p = pre.len();
    lemma_pow256_values();
    lemma_le_roundtrip(nb.len(), 2);
    lemma_le_roundtrip(e.1 as nat, 8);
    lemma_le_roundtrip(e.2.len(), 4);
    encode_utf8_valid_utf8(e.0);
    encode_utf8_decode_utf8(e.0);
    assert(encode_entry(e) == a + nb + h + l + e.2);
    let p1 = p + 2;
    let p2 = p1 + nb.len();
    let p3 = p2 + 8;
    let p4 = p3 + 4;
    assert(d.subrange(p as int, p + 2int) =~= a);
    assert(d.subrange(p1 as int, p2 as int) =~= nb);
    assert(d.subrange(p2 as int, p2 + 8int) =~= h);
    assert(d.subrange(p3 as int, p3 + 4int) =~= l);
    assert(d.subrange(p4 as int, (p4 + e.2.len()) as int) =~= e.2);
}

proof fn lemma_decode_entries_at(pre: Seq<u8>, es: Seq<(Seq<char>, u64, Seq<u8>)>, post: Seq<u8>)
    requires entries_fit(es),
    ensures
        decode_entries(pre + encode_entries(es) + post, pre.len(), es.len())
            == Some((es, pre.len() + encode_entries(es).len())),
    decreases es.len(),
{
    if es.len() == 0 {
        assert(es =~= Seq::<(Seq<char>, u64, Seq<u8>)>::empty());
    } else {
        let e = es[0];
        let rest = es.drop_first();
        assert(entry_fits(es[0]));
        assert(entries_fit(rest)) by {
            assert forall|i: int| 0 <= i < rest.len() implies entry_fits(#[trigger] rest[i]) by {
                assert(rest[i] == es[i + 1]);
            }
        }
        let d = pre + encode_entries(es) + post;
        assert(d =~= pre + encode_entry(e) + (encode_entries(rest) + post));
        lemma_decode_entry_at(pre, e, encode_entries(rest) + post);
        let pre2 = pre + encode_entry(e);
        assert(d =~= pre2 + encode_entries(rest) + post);
        lemma_decode_entries_at(pre2, rest, post);
        assert(seq![e] + rest =~= es);
    }
}

/// What is written is read back: a cache file made of entries that fit is decoded to
/// exactly those entries, in order.
pub proof fn law_adc_roundtrip(es: Seq<(Seq<char>, u64, Seq<u8>)>)
    requires
        entries_fit(es),
        es.len() < 0x1_0000_0000,
    ensures
        decode_adc(adc_file(es)) == Some(es),
{
    let d = adc_file(es);
    lemma_pow256_values();
    lemma_le_roundtrip(es.len(), 4);
    let head = adc_magic() + le_bytes(es.len() % 0x1_0000_0000, 4);
    assert(d =~= head + encode_entries(es) + Seq::empty());
    assert(d.subrange(0, 4) =~= adc_magic());
    assert(d.subrange(4, 8) =~= le_bytes(es.len() % 0x1_0000_0000, 4));
    lemma_decode_entries_at(head, es, Seq::empty());
}


// ---------------------------------------------------------------------------
// Association lists
// ---------------------------------------------------------------------------

/// The map of an association list, later pairs winning.
pub open spec fn assoc<K, V>(s: Seq<(K, V)>) -> Map<K, V>
    decreases s.len(),
{
    if s.len() == 0 { Map::empty() } else { assoc(s.drop_last()).insert(s.last().0, s.last().1) }
}

pub open spec fn keys_distinct<K, V>(s: Seq<(K, V)>) -> bool {
    forall|a: int, b: int| 0 <= a < b < s.len() ==> s[a].0 != s[b].0
}

proof fn lemma_assoc_dom<K, V>(s: Seq<(K, V)>, k: K)
    ensures assoc(s).contains_key(k) <==> exists|i: int| 0 <= i < s.len() && s[i].0 == k,
    decreases s.len(),
{
    if s.len() > 0 {
        lemma_assoc_dom(s.drop_last(), k);
        if assoc(s.drop_last()).contains_key(k) {
            let i = choose|i: int| 0 <= i < s.drop_last().len() && s.drop_last()[i].0 == k;
            assert(s[i].0 == k);
        }
        if exists|i: int| 0 <= i < s.len() && s[i].0 == k {
            let i = choose|i: int| 0 <= i < s.len() && s[i].0 == k;
            if i < s.len() - 1 {
                assert(s.drop_last()[i].0 == k);
            }
        }
    }
}

proof fn lemma_assoc_at<K, V>(s: Seq<(K, V)>, i: int)
    requires
        0 <= i < s.len(),
        keys_distinct(s),
    ensures
        assoc(s).contains_key(s[i].0),
        assoc(s)[s[i].0] == s[i].1,
    decreases s.len(),
{
    if i < s.len() - 1 {
        lemma_assoc_at(s.drop_last(), i);
    }
}

proof fn lemma_assoc_update<K, V>(s: Seq<(K, V)>, i: int, v: V)
    requires
        0 <= i < s.len(),
        keys_distinct(s),
    ensures
        keys_distinct(s.update(i, (s[i].0, v))),
        assoc(s.update(i, (s[i].0, v))) == assoc(s).insert(s[i].0, v),
    decreases s.len(),
{
    let t = s.update(i, (s[i].0, v));
    if i == s.len() - 1 {
        assert(t.drop_last() =~= s.drop_last());
        assert(assoc(t) =~= assoc(s).insert(s[i].0, v));
    } else {
        lemma_assoc_update(s.drop_last(), i, v);
        assert(t.drop_last() =~= s.drop_last().update(i, (s[i].0, v)));
        assert(assoc(t) =~= assoc(s).insert(s[i].0, v));
    }
}

proof fn lemma_assoc_remove<K, V>(s: Seq<(K, V)>, i: int)
    requires
        0 <= i < s.len(),
        keys_distinct(s),
    ensures
        keys_distinct(s.remove(i)),
        assoc(s.remove(i)) == assoc(s).remove(s[i].0),
    decreases s.len(),
{
    let t = s.remove(i);
    assert forall|a: int, b: int| 0 <= a < b < t.len() implies t[a].0 != t[b].0 by {
        let a2 = if a < i { a } else { a + 1 };
        let b2 = if b < i { b } else { b + 1 };
        assert(t[a] == s[a2]);
        assert(t[b] == s[b2]);
    }
    if i == s.len() - 1 {
        assert(t =~= s.drop_last());
        lemma_assoc_dom(s.drop_last(), s[i].0);
        assert(assoc(t) =~= assoc(s).remove(s[i].0));
    } else {
        lemma_assoc_remove(s.drop_last(), i);
        assert(t.drop_last() =~= s.drop_last().remove(i));
        assert(t.last() == s.last());
        assert(assoc(t) =~= assoc(s).remove(s[i].0));
    }
}

proof fn lemma_assoc_push_fresh<K, V>(s: Seq<(K, V)>, k: K, v: V)
    requires
        keys_distinct(s),
        !assoc(s).contains_key(k),
    ensures
        keys_distinct(s.push((k, v))),
        assoc(s.push((k, v))) == assoc(s).insert(k, v),
{
    lemma_assoc_dom(s, k);
    assert(s.push((k, v)).drop_last() =~= s);
    assert forall|a: int, b: int| 0 <= a < b < s.push((k, v)).len() implies
        s.push((k, v))[a].0 != s.push((k, v))[b].0 by {
        if b == s.len() {
            assert(s.push((k, v))[a] == s[a]);
        }
    }
}

// ---------------------------------------------------------------------------
// The in-memory cache
// ---------------------------------------------------------------------------

pub open spec fn entry_pairs(es: Seq<AdcEntry>) -> Seq<(Seq<char>, (u64, Seq<u8>))> {
    es.map_values(|e: AdcEntry| (e.name@, (e.hash, e.data@)))
}

pub open spec fn view_pairs(es: Seq<(Seq<char>, u64, Seq<u8>)>) -> Seq<(Seq<char>, (u64, Seq<u8>))> {
    es.map_values(|e: (Seq<char>, u64, Seq<u8>)| (e.0, (e.1, e.2)))
}

/// The defines of a cache file by name, with their hashes and bytes; where a name occurs
/// twice, the later entry counts.
pub open spec fn entry_map(es: Seq<(Seq<char>, u64, Seq<u8>)>) -> Map<Seq<char>, (u64, Seq<u8>)> {
    assoc(view_pairs(es))
}

pub open spec fn file_pairs(fs: Seq<(String, Vec<AdcEntry>)>) -> Seq<(Seq<char>, Map<Seq<char>, (u64, Seq<u8>)>)> {
    fs.map_values(|f: (String, Vec<AdcEntry>)| (f.0@, assoc(entry_pairs(f.1@))))
}

/// The defines that a cache file's bytes hold, or none when there is no file or it is not a
/// well-formed cache file.
pub open spec fn loaded_entries(file: Option<Seq<u8>>) -> Map<Seq<char>, (u64, Seq<u8>)> {
    match file {
        Some(b) => match decode_adc(b) {
            Some(es) => entry_map(es),
            None => Map::empty(),
        },
        None => Map::empty(),
    }
}

/// The cache once the source `path` is loaded: unchanged if it was, else with the defines of
/// its cache file's bytes.
pub open spec fn after_load(m: Map<Seq<char>, Map<Seq<char>, (u64, Seq<u8>)>>, path: Seq<char>,
    file: Option<Seq<u8>>) -> Map<Seq<char>, Map<Seq<char>, (u64, Seq<u8>)>> {
    if m.contains_key(path) { m } else { m.insert(path, loaded_entries(file)) }
}

pub open spec fn opt_bytes(file: Option<&[u8]>) -> Option<Seq<u8>> {
    match file {
        Some(b) => Some(b@),
        None => None,
    }
}

/// The path of a file, as the target platform's path syntax parses it, with its file name
/// replaced by `name` (as `Path::with_file_name` does).
pub uninterp spec fn with_file_name_of(path: Seq<char>, name: Seq<char>) -> Seq<char>;

/// The stem of a path's file name (as `Path::file_stem` gives it), if it has a file name.
pub uninterp spec fn file_stem_of(path: Seq<char>) -> Option<Seq<char>>;

/// Calls `Path::file_stem`; the stem, read as text (invalid UTF-8 replaced), is named
/// `file_stem_of` of the path.
#[verifier::external_body]
fn path_file_stem(path: &str) -> (r: Option<String>)
    ensures
        match r {
            Some(s) => file_stem_of(path@) == Some(s@),
            None => file_stem_of(path@) is None,
        },
{
    match std::path::Path::new(path).file_stem() {
        Some(stem) => Some(stem.to_string_lossy().into_owned()),
        None => None,
    }
}

/// Calls `Path::with_file_name`; the new path, read as text, is named `with_file_name_of`
/// of the path and the name.
#[verifier::external_body]
fn path_with_file_name(path: &str, name: &str) -> (r: String)
    ensures r@ == with_file_name_of(path@, name@),
{
    std::path::Path::new(path).with_file_name(name).to_string_lossy().into_owned()
}

/// Cache of compiled defines, by source file, loaded from `.adc` files on first use.
pub struct DefineCache {
    files: Vec<(String, Vec<AdcEntry>)>,
}

impl DefineCache {
    /// The defines known for each source path, by name, with their hashes and bytes.
    pub closed spec fn view(&self) -> Map<Seq<char>, Map<Seq<char>, (u64, Seq<u8>)>> {
        assoc(file_pairs(self.files@))
    }

    /// Each source appears once, and each define once within its source.
    #[verifier::type_invariant]
    spec fn wf(&self) -> bool {
        &&& keys_distinct(file_pairs(self.files@))
        &&& forall|i: int| 0 <= i < self.files@.len() ==> keys_distinct(entry_pairs(#[trigger] self.files@[i].1@))
    }

    /// The entries of the cache file of source `path`, in the order they are written.
    pub closed spec fn file_entries(&self, path: Seq<char>) -> Seq<(Seq<char>, u64, Seq<u8>)> {
        let i = choose|i: int| 0 <= i < self.files@.len() && self.files@[i].0@ == path;
        entries_view(self.files@[i].1@)
    }

    /// An empty cache.
    pub fn new() -> (c: Self)
        ensures
            c@ == Map::<Seq<char>, Map<Seq<char>, (u64, Seq<u8>)>>::empty(),
    {
        let files: Vec<(String, Vec<AdcEntry>)> = Vec::new();
        assert(file_pairs(files@) =~= Seq::<(Seq<char>, Map<Seq<char>, (u64, Seq<u8>)>)>::empty());
        DefineCache { files }
    }

    /// The `.adc` path that goes with a source `.au` file: the same directory, the file's stem
    /// and the extension `.adc`.
    pub fn cache_path(source_path: &str) -> (r: String)
        ensures
            r@ == with_file_name_of(source_path@, match file_stem_of(source_path@) {
                Some(stem) => stem,
                None => Seq::empty(),
            } + ".adc"@),
    {
        let mut name = match path_file_stem(source_path) {
            Some(stem) => stem,
            None => String::new(),
        };
        name.append(".adc");
        path_with_file_name(source_path, name.as_str())
    }

    fn find_file(&self, path: &str) -> (r: Option<usize>)
        ensures
            match r {
                Some(i) => i < self.files@.len() && self.files@[i as int].0@ == path@,
                None => !self@.contains_key(path@),
            },
    {
        proof { use_type_invariant(self); }
        let mut i: usize = 0;
        while i < self.files.len()
            invariant
                i <= self.files@.len(),
                forall|k: int| 0 <= k < i ==> self.files@[k].0@ != path@,
            decreases self.files.len() - i,
        {
            if str_eq(self.files[i].0.as_str(), path) {
                return Some(i);
            }
            i += 1;
        }
        proof {
            lemma_assoc_dom(file_pairs(self.files@), path@);
            if exists|k: int| 0 <= k < file_pairs(self.files@).len() && file_pairs(self.files@)[k].0 == path@ {
                let k = choose|k: int| 0 <= k < file_pairs(self.files@).len() && file_pairs(self.files@)[k].0 == path@;
                assert(self.files@[k].0@ == path@);
            }
        }
        None
    }

    /// Whether the cache file of source `path` has been loaded.
    pub fn is_loaded(&self, source_path: &str) -> (r: bool)
        ensures r == self@.contains_key(source_path@),
    {
        proof { use_type_invariant(self); }
        match self.find_file(source_path) {
            Some(i) => {
                proof { lemma_assoc_at(file_pairs(self.files@), i as int); }
                true
            },
            None => false,
        }
    }

    /// Loads the cache file of source `path` from its bytes `file` unless the source is
    /// already loaded; answers where the source's defines are kept.
    fn ensure_loaded(&mut self, source_path: &str, file: Option<&[u8]>) -> (idx: usize)
        ensures
            final(self)@ == after_load(old(self)@, source_path@, opt_bytes(file)),
            idx < final(self).files@.len(),
            final(self).files@[idx as int].0@ == source_path@,
    {
        proof { use_type_invariant(&*self); }
        match self.find_file(source_path) {
            Some(i) => {
                proof { lemma_assoc_at(file_pairs(self.files@), i as int); }
                i
            },
            None => {
                let mut entries: Vec<AdcEntry> = Vec::new();
                let ghost loaded = loaded_entries(opt_bytes(file));
                assert(entry_pairs(entries@) =~= Seq::<(Seq<char>, (u64, Seq<u8>))>::empty());
                match file {
                    Some(b) => match read_adc(b) {
                        Some(decoded) => {
                            let mut rest = decoded;
                            let ghost all = entries_view(rest@);
                            let ghost mut k: int = 0;
                            while rest.len() > 0
                                invariant
                                    0 <= k <= all.len(),
                                    entries_view(rest@) == all.skip(k),
                                    keys_distinct(entry_pairs(entries@)),
                                    assoc(entry_pairs(entries@)) == entry_map(all.take(k)),
                                decreases rest.len(),
                            {
                                let ghost before = rest@;
                                let e = rest.remove(0);
                                proof {
                                    assert(before.len() > 0);
                                    assert(entries_view(before).len() == before.len());
                                    assert(all.skip(k).len() == all.len() - k);
                                    assert(entries_view(before)[0] == entry_view(before[0]));
                                    assert(all.skip(k)[0] == all[k]);
                                    assert(e == before[0]);
                                    assert(entry_view(e) == all[k]);
                                    assert(rest@ =~= before.subrange(1, before.len() as int));
                                    assert forall|t: int| 0 <= t < rest@.len() implies
                                        #[trigger] entries_view(rest@)[t] == all.skip(k + 1)[t] by {
                                        assert(entries_view(rest@)[t] == entry_view(rest@[t]));
                                        assert(rest@[t] == before[t + 1]);
                                        assert(entries_view(before)[t + 1] == all.skip(k)[t + 1]);
                                    }
                                    assert(entries_view(rest@) =~= all.skip(k + 1));
                                    assert(view_pairs(all.take(k + 1)).drop_last() =~= view_pairs(all.take(k)));
                                }
                                upsert(&mut entries, e);
                                proof { k = k + 1; }
                            }
                            assert(all.take(k) =~= all);
                        },
                        None => {},
                    },
                    None => {},
                }
                assert(assoc(entry_pairs(entries@)) == loaded);
                proof { use_type_invariant(&*self); }
                let ghost before = self.files@;
                let ghost pair = (source_path@, assoc(entry_pairs(entries@)));
                proof { lemma_assoc_push_fresh(file_pairs(before), source_path@, assoc(entry_pairs(entries@))); }
                let mut files: Vec<(String, Vec<AdcEntry>)> = Vec::new();
                assert(file_pairs(files@) =~= Seq::<(Seq<char>, Map<Seq<char>, (u64, Seq<u8>)>)>::empty());
                std::mem::swap(&mut files, &mut self.files);
                files.push((String::from_str(source_path), entries));
                assert(file_pairs(files@) =~= file_pairs(before).push(pair));
                assert forall|i: int| 0 <= i < files@.len() implies keys_distinct(entry_pairs(#[trigger] files@[i].1@)) by {
                    if i < before.len() {
                        assert(files@[i] == before[i]);
                    }
                }
                self.files = files;
                self.files.len() - 1
            },
        }
    }

    /// The compiled bytes of define `name` of source `path`, if the cache holds them for this
    /// `hash`. The source's cache file is loaded first, from `file` (its bytes, if it could be
    /// read), unless it was loaded before.
    pub fn get(&mut self, source_path: &str, name: &str, hash: u64, file: Option<&[u8]>) -> (r: Option<Vec<u8>>)
        ensures
            final(self)@ == after_load(old(self)@, source_path@, opt_bytes(file)),
            lookup_result(final(self)@[source_path@], name@, hash, r),
    {
        let idx = self.ensure_loaded(source_path, file);
        proof { use_type_invariant(&*self); }
        let ghost es = self.files@[idx as int].1@;
        let ghost v = self@;
        proof { lemma_assoc_at(file_pairs(self.files@), idx as int); }
        let entries = &self.files[idx].1;
        let mut i: usize = 0;
        while i < entries.len()
            invariant
                self@ == v,
                v == after_load(old(self)@, source_path@, opt_bytes(file)),
                v.contains_key(source_path@),
                v[source_path@] == assoc(entry_pairs(es)),
                i <= entries@.len(),
                entries@ == es,
                keys_distinct(entry_pairs(es)),
                forall|k: int| 0 <= k < i ==> es[k].name@ != name@,
            decreases entries.len() - i,
        {
            if str_eq(entries[i].name.as_str(), name) {
                proof { lemma_assoc_at(entry_pairs(es), i as int); }
                if entries[i].hash == hash {
                    let d = copy_range(entries[i].data.as_slice(), 0, entries[i].data.len());
                    assert(entries[i as int].data@.subrange(0, entries[i as int].data@.len() as int) =~= entries[i as int].data@);
                    return Some(d);
                }
                return None;
            }
            i += 1;
        }
        proof {
            lemma_assoc_dom(entry_pairs(es), name@);
            if exists|k: int| 0 <= k < entry_pairs(es).len() && entry_pairs(es)[k].0 == name@ {
                let k = choose|k: int| 0 <= k < entry_pairs(es).len() && entry_pairs(es)[k].0 == name@;
                assert(es[k].name@ == name@);
            }
        }
        None
    }

    /// Stores the compiled bytes of define `name` of source `path` under `hash`, and returns
    /// the bytes of the source's whole cache file, to be written to disk. The source's cache
    /// file is loaded first, from `file`, unless it was loaded before.
    pub fn put(&mut self, source_path: &str, name: &str, hash: u64, bytes: Vec<u8>, file: Option<&[u8]>) -> (r: Vec<u8>)
        ensures
            final(self)@ == ({
                let l = after_load(old(self)@, source_path@, opt_bytes(file));
                l.insert(source_path@, l[source_path@].insert(name@, (hash, bytes@)))
            }),
            r@ == adc_file(final(self).file_entries(source_path@)),
            entry_map(final(self).file_entries(source_path@)) == final(self)@[source_path@],
    {
        let idx = self.ensure_loaded(source_path, file);
        proof { use_type_invariant(&*self); }
        let ghost l = self@;
        let ghost before = self.files@;
        proof {
            lemma_assoc_at(file_pairs(before), idx as int);
            lemma_assoc_remove(file_pairs(before), idx as int);
        }
        let mut files: Vec<(String, Vec<AdcEntry>)> = Vec::new();
        assert(file_pairs(files@) =~= Seq::<(Seq<char>, Map<Seq<char>, (u64, Seq<u8>)>)>::empty());
        std::mem::swap(&mut files, &mut self.files);
        let (p, mut es) = files.remove(idx);
        assert(file_pairs(files@) =~= file_pairs(before).remove(idx as int));
        upsert(&mut es, AdcEntry { name: String::from_str(name), hash, data: bytes });
        let out = write_adc(es.as_slice());
        let ghost mid = files@;
        let ghost pair = (p@, assoc(entry_pairs(es@)));
        proof {
            lemma_assoc_dom(file_pairs(before).remove(idx as int), source_path@);
            lemma_assoc_push_fresh(file_pairs(mid), p@, assoc(entry_pairs(es@)));
        }
        files.push((p, es));
        proof {
            assert(file_pairs(files@) =~= file_pairs(mid).push(pair));
            assert forall|i: int| 0 <= i < files@.len() implies keys_distinct(entry_pairs(#[trigger] files@[i].1@)) by {
                if i < mid.len() {
                    let i2 = if i < idx { i } else { i + 1 };
                    assert(files@[i] == before[i2]);
                }
            }
        }
        self.files = files;
        proof {
            assert(self@ =~= l.insert(source_path@, l[source_path@].insert(name@, (hash, bytes@))));
            let last = self.files@.len() - 1;
            assert(self.files@[last].0@ == source_path@);
            let c = choose|i: int| 0 <= i < self.files@.len() && self.files@[i].0@ == source_path@;
            if c != last {
                assert(file_pairs(self.files@)[c].0 == file_pairs(self.files@)[last].0);
            }
            assert(view_pairs(entries_view(self.files@[last].1@)) =~= entry_pairs(self.files@[last].1@));
        }
        out
    }
}

/// What a lookup answers: the bytes when the define is known with this hash, else nothing.
pub open spec fn lookup_result(m: Map<Seq<char>, (u64, Seq<u8>)>, name: Seq<char>, hash: u64, r: Option<Vec<u8>>) -> bool {
    if m.contains_key(name) && m[name].0 == hash {
        r matches Some(b) && b@ == m[name].1
    } else {
        r is None
    }
}

/// A define stored with a hash is found again with that hash, and under another hash it is
/// not found.
pub proof fn law_put_then_get(m: Map<Seq<char>, (u64, Seq<u8>)>, name: Seq<char>, hash: u64, bytes: Seq<u8>,
    other: u64, r: Option<Vec<u8>>, s: Option<Vec<u8>>)
    requires
        lookup_result(m.insert(name, (hash, bytes)), name, hash, r),
        lookup_result(m.insert(name, (hash, bytes)), name, other, s),
        other != hash,
    ensures
        r matches Some(b) && b@ == bytes,
        s is None,
{
}

/// What one call does to the cache's view, for a call described as (whether it is a `put`,
/// the source path, the source's cache file bytes, the define's name, hash and bytes): a `get`
/// loads the source if needed; a `put` also stores the define.
pub open spec fn cache_after(m: Map<Seq<char>, Map<Seq<char>, (u64, Seq<u8>)>>,
    op: (bool, Seq<char>, Option<Seq<u8>>, Seq<char>, u64, Seq<u8>)) -> Map<Seq<char>, Map<Seq<char>, (u64, Seq<u8>)>> {
    let l = after_load(m, op.1, op.2);
    if op.0 { l.insert(op.1, l[op.1].insert(op.3, (op.4, op.5))) } else { l }
}

/// The cache's view after the calls `ops`, in order.
pub open spec fn cache_after_all(m: Map<Seq<char>, Map<Seq<char>, (u64, Seq<u8>)>>,
    ops: Seq<(bool, Seq<char>, Option<Seq<u8>>, Seq<char>, u64, Seq<u8>)>) -> Map<Seq<char>, Map<Seq<char>, (u64, Seq<u8>)>>
    decreases ops.len(),
{
    if ops.len() == 0 { m } else { cache_after(cache_after_all(m, ops.drop_last()), ops.last()) }
}

proof fn lemma_entry_kept(m: Map<Seq<char>, Map<Seq<char>, (u64, Seq<u8>)>>, path: Seq<char>, name: Seq<char>,
    e: (u64, Seq<u8>), ops: Seq<(bool, Seq<char>, Option<Seq<u8>>, Seq<char>, u64, Seq<u8>)>)
    requires
        m.contains_key(path),
        m[path].contains_key(name),
        m[path][name] == e,
        forall|i: int| 0 <= i < ops.len() ==> !(#[trigger] ops[i].0 && ops[i].1 == path && ops[i].3 == name),
    ensures
        cache_after_all(m, ops).contains_key(path),
        cache_after_all(m, ops)[path].contains_key(name),
        cache_after_all(m, ops)[path][name] == e,
    decreases ops.len(),
{
    if ops.len() > 0 {
        let ys = ops.drop_last();
        assert forall|i: int| 0 <= i < ys.len() implies !(#[trigger] ys[i].0 && ys[i].1 == path && ys[i].3 == name) by {
            assert(ys[i] == ops[i]);
        }
        lemma_entry_kept(m, path, name, e, ys);
        let op = ops.last();
        assert(!(op.0 && op.1 == path && op.3 == name)) by { assert(op == ops[ops.len() - 1]); }
    }
}

/// A define stored with a hash is found again with that hash, and under no other hash, after
/// any calls in between that store no define of the same name for the same source.
pub proof fn law_put_survives_other_calls(m: Map<Seq<char>, Map<Seq<char>, (u64, Seq<u8>)>>, path: Seq<char>,
    file: Option<Seq<u8>>, name: Seq<char>, hash: u64, bytes: Seq<u8>,
    ops: Seq<(bool, Seq<char>, Option<Seq<u8>>, Seq<char>, u64, Seq<u8>)>,
    other: u64, r: Option<Vec<u8>>, s: Option<Vec<u8>>)
    requires
        forall|i: int| 0 <= i < ops.len() ==> !(#[trigger] ops[i].0 && ops[i].1 == path && ops[i].3 == name),
        lookup_result(cache_after_all(cache_after(m, (true, path, file, name, hash, bytes)), ops)[path], name, hash, r),
        lookup_result(cache_after_all(cache_after(m, (true, path, file, name, hash, bytes)), ops)[path], name, other, s),
        other != hash,
    ensures
        r matches Some(b) && b@ == bytes,
        s is None,
{
    let m1 = cache_after(m, (true, path, file, name, hash, bytes));
    assert(m1.contains_key(path) && m1[path].contains_key(name) && m1[path][name] == (hash, bytes));
    lemma_entry_kept(m1, path, name, (hash, bytes), ops);
}

/// Adds or replaces the define `e` in a list of defines with distinct names.
fn upsert(es: &mut Vec<AdcEntry>, e: AdcEntry)
    requires keys_distinct(entry_pairs(old(es)@)),
    ensures
        keys_distinct(entry_pairs(final(es)@)),
        assoc(entry_pairs(final(es)@)) == assoc(entry_pairs(old(es)@)).insert(e.name@, (e.hash, e.data@)),
{
    let ghost ev = (e.name@, (e.hash, e.data@));
    let mut i: usize = 0;
    while i < es.len()
        invariant
            i <= es@.len(),
            es@ == old(es)@,
            keys_distinct(entry_pairs(es@)),
            ev == (e.name@, (e.hash, e.data@)),
            forall|k: int| 0 <= k < i ==> es@[k].name@ != e.name@,
        decreases es.len() - i,
    {
        if str_eq(es[i].name.as_str(), e.name.as_str()) {
            proof {
                lemma_assoc_update(entry_pairs(es@), i as int, (e.hash, e.data@));
            }
            let ghost before = es@;
            es.set(i, e);
            assert(entry_pairs(es@) =~= entry_pairs(before).update(i as int, (entry_pairs(before)[i as int].0, (ev.1))));
            return;
        }
        i += 1;
    }
    proof {
        lemma_assoc_dom(entry_pairs(es@), e.name@);
        if exists|k: int| 0 <= k < entry_pairs(es@).len() && entry_pairs(es@)[k].0 == e.name@ {
            let k = choose|k: int| 0 <= k < entry_pairs(es@).len() && entry_pairs(es@)[k].0 == e.name@;
            assert(es@[k].name@ == e.name@);
        }
        lemma_assoc_push_fresh(entry_pairs(es@), e.name@, (e.hash, e.data@));
    }
    let ghost before = es@;
    es.push(e);
    assert(entry_pairs(es@) =~= entry_pairs(before).push(ev));
}

} // verus!
