//! The engine's native attribute representation.
//!
//! Every value travels as a byte string tagged with a datatype code.
//! Integers are eight little-endian bytes; strings and documents are
//! their raw bytes; lists of strings are a run of length-prefixed
//! elements; lists of integers are a run of eight-byte elements; sets
//! are encoded like lists with their elements in strictly increasing
//! order; maps are a run of key-value entries, each field
//! length-prefixed or eight bytes wide by its shape, with keys in
//! strictly increasing order.

use vstd::prelude::*;

use crate::client_types::{
    bytes_lt, clone_bytes, map_bytes_keys_sorted, map_int_keys_sorted, set_int_sorted,
    set_string_sorted, value_valid, HyperMapAttribute, HyperObject, HyperPredicate, HyperValue,
    ValueModel,
};

verus! {

/// Datatype codes the engine tags attribute values with.
pub const HYPERDATATYPE_GENERIC: u32 = 9216;
pub const HYPERDATATYPE_STRING: u32 = 9217;
pub const HYPERDATATYPE_INT64: u32 = 9218;
pub const HYPERDATATYPE_DOCUMENT: u32 = 9223;
pub const HYPERDATATYPE_LIST_STRING: u32 = 9281;
pub const HYPERDATATYPE_LIST_INT64: u32 = 9282;
pub const HYPERDATATYPE_SET_STRING: u32 = 9345;
pub const HYPERDATATYPE_SET_INT64: u32 = 9346;
pub const HYPERDATATYPE_MAP_STRING_STRING: u32 = 9417;
pub const HYPERDATATYPE_MAP_STRING_INT64: u32 = 9418;
pub const HYPERDATATYPE_MAP_INT64_STRING: u32 = 9425;
pub const HYPERDATATYPE_MAP_INT64_INT64: u32 = 9426;

/// The four little-endian bytes of a 32-bit length prefix.
pub open spec fn le32_bytes(x: u32) -> Seq<u8> {
    seq![
        (x & 0xff) as u8,
        ((x >> 8u32) & 0xff) as u8,
        ((x >> 16u32) & 0xff) as u8,
        ((x >> 24u32) & 0xff) as u8,
    ]
}

/// The 32-bit value four little-endian bytes carry.
pub open spec fn le32_value(b: Seq<u8>) -> u32
    recommends
        b.len() == 4,
{
    (b[0] as u32) | ((b[1] as u32) << 8u32) | ((b[2] as u32) << 16u32) | ((b[3] as u32) << 24u32)
}

/// The eight little-endian bytes of a 64-bit integer.
pub open spec fn le64_bytes(x: u64) -> Seq<u8> {
    seq![
        (x & 0xff) as u8,
        ((x >> 8u64) & 0xff) as u8,
        ((x >> 16u64) & 0xff) as u8,
        ((x >> 24u64) & 0xff) as u8,
        ((x >> 32u64) & 0xff) as u8,
        ((x >> 40u64) & 0xff) as u8,
        ((x >> 48u64) & 0xff) as u8,
        ((x >> 56u64) & 0xff) as u8,
    ]
}

/// The 64-bit value eight little-endian bytes carry.
pub open spec fn le64_value(b: Seq<u8>) -> u64
    recommends
        b.len() == 8,
{
    (b[0] as u64) | ((b[1] as u64) << 8u64) | ((b[2] as u64) << 16u64) | ((b[3] as u64) << 24u64)
        | ((b[4] as u64) << 32u64) | ((b[5] as u64) << 40u64) | ((b[6] as u64) << 48u64) | ((
    b[7] as u64) << 56u64)
}

/// Reading back the four bytes of a 32-bit value gives the value.
pub proof fn lemma_le32_round(x: u32)
    ensures
        le32_value(le32_bytes(x)) == x,
{
    assert(((x & 0xff) as u8 as u32) | ((((x >> 8u32) & 0xff) as u8 as u32) << 8u32) | ((((x
        >> 16u32) & 0xff) as u8 as u32) << 16u32) | ((((x >> 24u32) & 0xff) as u8 as u32)
        << 24u32) == x) by (bit_vector);
}

/// Reading back the eight bytes of a 64-bit value gives the value.
pub proof fn lemma_le64_round(x: u64)
    ensures
        le64_value(le64_bytes(x)) == x,
{
    assert(((x & 0xff) as u8 as u64) | ((((x >> 8u64) & 0xff) as u8 as u64) << 8u64) | ((((x
        >> 16u64) & 0xff) as u8 as u64) << 16u64) | ((((x >> 24u64) & 0xff) as u8 as u64)
        << 24u64) | ((((x >> 32u64) & 0xff) as u8 as u64) << 32u64) | ((((x >> 40u64) & 0xff)
        as u8 as u64) << 40u64) | ((((x >> 48u64) & 0xff) as u8 as u64) << 48u64) | ((((x
        >> 56u64) & 0xff) as u8 as u64) << 56u64) == x) by (bit_vector);
}

/// The signed reading of an integer's unsigned bit pattern is the
/// integer.
pub proof fn lemma_i64_bits_round(x: i64)
    ensures
        (x as u64) as i64 == x,
{
    assert((x as u64) as i64 == x) by (bit_vector);
}

/// Appends the four little-endian bytes of `x`.
pub fn push_le32(acc: &mut Vec<u8>, x: u32)
    ensures
        final(acc)@ == old(acc)@ + le32_bytes(x),
{
    acc.push((x & 0xff) as u8);
    acc.push(((x >> 8u32) & 0xff) as u8);
    acc.push(((x >> 16u32) & 0xff) as u8);
    acc.push(((x >> 24u32) & 0xff) as u8);
    proof {
        assert(acc@ =~= old(acc)@ + le32_bytes(x));
    }
}

/// Appends the eight little-endian bytes of `x`.
pub fn push_le64(acc: &mut Vec<u8>, x: u64)
    ensures
        final(acc)@ == old(acc)@ + le64_bytes(x),
{
    acc.push((x & 0xff) as u8);
    acc.push(((x >> 8u64) & 0xff) as u8);
    acc.push(((x >> 16u64) & 0xff) as u8);
    acc.push(((x >> 24u64) & 0xff) as u8);
    acc.push(((x >> 32u64) & 0xff) as u8);
    acc.push(((x >> 40u64) & 0xff) as u8);
    acc.push(((x >> 48u64) & 0xff) as u8);
    acc.push(((x >> 56u64) & 0xff) as u8);
    proof {
        assert(acc@ =~= old(acc)@ + le64_bytes(x));
    }
}

/// Reads the 32-bit length prefix at `off`.
pub fn read_le32(b: &Vec<u8>, off: usize) -> (n: u32)
    requires
        off + 4 <= b.len(),
    ensures
        n == le32_value(b@.subrange(off as int, off + 4)),
{
    let n = (b[off] as u32) | ((b[off + 1] as u32) << 8u32) | ((b[off + 2] as u32) << 16u32) | ((
    b[off + 3] as u32) << 24u32);
    proof {
        let s = b@.subrange(off as int, off + 4);
        assert(s[0] == b@[off as int]);
        assert(s[1] == b@[off + 1]);
        assert(s[2] == b@[off + 2]);
        assert(s[3] == b@[off + 3]);
    }
    n
}

/// Reads the eight-byte integer at `off`.
pub fn read_le64(b: &Vec<u8>, off: usize) -> (n: u64)
    requires
        off + 8 <= b.len(),
    ensures
        n == le64_value(b@.subrange(off as int, off + 8)),
{
    let n = (b[off] as u64) | ((b[off + 1] as u64) << 8u64) | ((b[off + 2] as u64) << 16u64) | ((
    b[off + 3] as u64) << 24u64) | ((b[off + 4] as u64) << 32u64) | ((b[off + 5] as u64)
        << 40u64) | ((b[off + 6] as u64) << 48u64) | ((b[off + 7] as u64) << 56u64);
    proof {
        let s = b@.subrange(off as int, off + 8);
        assert(s[0] == b@[off as int]);
        assert(s[1] == b@[off + 1]);
        assert(s[2] == b@[off + 2]);
        assert(s[3] == b@[off + 3]);
        assert(s[4] == b@[off + 4]);
        assert(s[5] == b@[off + 5]);
        assert(s[6] == b@[off + 6]);
        assert(s[7] == b@[off + 7]);
    }
    n
}

/// Copies `n` bytes starting at `start`.
pub fn copy_range(b: &Vec<u8>, start: usize, n: usize) -> (r: Vec<u8>)
    requires
        start + n <= b.len(),
    ensures
        r@ == b@.subrange(start as int, start + n),
{
    let mut r: Vec<u8> = Vec::new();
    let mut j: usize = 0;
    while j < n
        invariant
            j <= n,
            start + n <= b.len(),
            r@ == b@.subrange(start as int, start + j),
        decreases n - j,
    {
        r.push(b[start + j]);
        proof {
            assert(b@.subrange(start as int, start + j + 1) =~= b@.subrange(
                start as int,
                start + j,
            ).push(b@[start + j]));
        }
        j = j + 1;
    }
    r
}

/// Appends all of `b`.
pub fn append_bytes(acc: &mut Vec<u8>, b: &Vec<u8>)
    ensures
        final(acc)@ == old(acc)@ + b@,
{
    let mut j: usize = 0;
    while j < b.len()
        invariant
            j <= b.len(),
            acc@ == old(acc)@ + b@.subrange(0, j as int),
        decreases b.len() - j,
    {
        acc.push(b[j]);
        proof {
            assert(acc@ =~= old(acc)@ + b@.subrange(0, j + 1 as int));
        }
        j = j + 1;
    }
    proof {
        assert(acc@ =~= old(acc)@ + b@);
    }
}

/// Parses a run of length-prefixed byte strings.
pub open spec fn spec_parse_string_list(b: Seq<u8>) -> Option<Seq<Seq<u8>>>
    decreases b.len(),
{
    if b.len() == 0 {
        Some(Seq::empty())
    } else if b.len() < 4 {
        None
    } else {
        let n = le32_value(b.subrange(0, 4)) as int;
        if b.len() < 4 + n {
            None
        } else {
            match spec_parse_string_list(b.skip(4 + n)) {
                None => None,
                Some(rest) => Some(seq![b.subrange(4, 4 + n)] + rest),
            }
        }
    }
}

/// Parses a run of eight-byte integers.
pub open spec fn spec_parse_int_list(b: Seq<u8>) -> Option<Seq<i64>>
    decreases b.len(),
{
    if b.len() == 0 {
        Some(Seq::empty())
    } else if b.len() < 8 {
        None
    } else {
        match spec_parse_int_list(b.skip(8)) {
            None => None,
            Some(rest) => Some(seq![le64_value(b.subrange(0, 8)) as i64] + rest),
        }
    }
}

/// One length-prefixed element of a string list.
pub open spec fn spec_encode_string_item(s: Seq<u8>) -> Seq<u8> {
    le32_bytes(s.len() as u32) + s
}

/// The encoding of a list of byte strings.
pub open spec fn spec_encode_string_list(l: Seq<Seq<u8>>) -> Seq<u8>
    decreases l.len(),
{
    if l.len() == 0 {
        Seq::empty()
    } else {
        spec_encode_string_item(l[0]) + spec_encode_string_list(l.skip(1))
    }
}

/// The encoding of a list of integers.
pub open spec fn spec_encode_int_list(l: Seq<i64>) -> Seq<u8>
    decreases l.len(),
{
    if l.len() == 0 {
        Seq::empty()
    } else {
        le64_bytes(l[0] as u64) + spec_encode_int_list(l.skip(1))
    }
}

/// Parses the byte string elements of a list- or set-shaped value.
fn parse_string_items(b: &Vec<u8>) -> (r: Option<Vec<Vec<u8>>>)
    ensures
        match r {
            Some(items) => spec_parse_string_list(b@) == Some(items.deep_view()),
            None => spec_parse_string_list(b@) is None,
        },
{
    let mut items: Vec<Vec<u8>> = Vec::new();
    let mut off: usize = 0;
    proof {
        assert(b@.skip(0) =~= b@);
        match spec_parse_string_list(b@) {
            None => {},
            Some(rest) => {
                assert(items.deep_view() + rest =~= rest);
            },
        }
    }
    while off < b.len()
        invariant
            off <= b.len(),
            spec_parse_string_list(b@) == (match spec_parse_string_list(b@.skip(off as int)) {
                None => None::<Seq<Seq<u8>>>,
                Some(rest) => Some(items.deep_view() + rest),
            }),
        decreases b.len() - off,
    {
        let ghost suffix = b@.skip(off as int);
        if b.len() - off < 4 {
            return None;
        }
        let n32 = read_le32(b, off);
        proof {
            assert(suffix.subrange(0, 4) =~= b@.subrange(off as int, off + 4));
        }
        let n = n32 as usize;
        if b.len() - off - 4 < n {
            proof {
                assert(suffix.len() < 4 + n32 as int);
            }
            return None;
        }
        let item = copy_range(b, off + 4, n);
        proof {
            assert(suffix.subrange(4, 4 + n32 as int) =~= b@.subrange(off + 4, off + 4 + n));
            assert(suffix.skip(4 + n32 as int) =~= b@.skip(off + 4 + n));
        }
        let ghost pre = items.deep_view();
        items.push(item);
        proof {
            assert forall|j: int| 0 <= j < pre.len() implies #[trigger] items.deep_view()[j]
                == pre[j] by {}
            assert(items.deep_view()[pre.len() as int] =~= item@);
            assert(items.deep_view() =~= pre.push(item@));
            match spec_parse_string_list(b@.skip(off + 4 + n)) {
                None => {},
                Some(rest2) => {
                    assert(pre + (seq![item@] + rest2) =~= items.deep_view() + rest2);
                },
            }
        }
        off = off + 4 + n;
    }
    proof {
        assert(b@.skip(b@.len() as int) =~= Seq::<u8>::empty());
        assert(items.deep_view() + Seq::<Seq<u8>>::empty() =~= items.deep_view());
    }
    Some(items)
}

/// Parses the integer elements of a list- or set-shaped value.
fn parse_int_items(b: &Vec<u8>) -> (r: Option<Vec<i64>>)
    ensures
        match r {
            Some(items) => spec_parse_int_list(b@) == Some(items@),
            None => spec_parse_int_list(b@) is None,
        },
{
    let mut items: Vec<i64> = Vec::new();
    let mut off: usize = 0;
    proof {
        assert(b@.skip(0) =~= b@);
        match spec_parse_int_list(b@) {
            None => {},
            Some(rest) => {
                assert(items@ + rest =~= rest);
            },
        }
    }
    while off < b.len()
        invariant
            off <= b.len(),
            spec_parse_int_list(b@) == (match spec_parse_int_list(b@.skip(off as int)) {
                None => None::<Seq<i64>>,
                Some(rest) => Some(items@ + rest),
            }),
        decreases b.len() - off,
    {
        let ghost suffix = b@.skip(off as int);
        if b.len() - off < 8 {
            return None;
        }
        let word = read_le64(b, off);
        proof {
            assert(suffix.subrange(0, 8) =~= b@.subrange(off as int, off + 8));
            assert(suffix.skip(8) =~= b@.skip(off + 8));
        }
        let ghost pre = items@;
        items.push(word as i64);
        proof {
            match spec_parse_int_list(b@.skip(off + 8)) {
                None => {},
                Some(rest2) => {
                    assert(pre + (seq![le64_value(suffix.subrange(0, 8)) as i64] + rest2)
                        =~= items@ + rest2);
                },
            }
        }
        off = off + 8;
    }
    proof {
        assert(b@.skip(b@.len() as int) =~= Seq::<u8>::empty());
        assert(items@ + Seq::<i64>::empty() =~= items@);
    }
    Some(items)
}

/// Encodes byte string elements as a run of length-prefixed elements.
fn encode_string_items(items: &Vec<Vec<u8>>) -> (r: Vec<u8>)
    ensures
        r@ == spec_encode_string_list(items.deep_view()),
{
    let ghost full = items.deep_view();
    let mut acc: Vec<u8> = Vec::new();
    let mut i: usize = 0;
    proof {
        assert(full.skip(0) =~= full);
        assert(acc@ + spec_encode_string_list(full) =~= spec_encode_string_list(full));
    }
    while i < items.len()
        invariant
            i <= items@.len(),
            full == items.deep_view(),
            acc@ + spec_encode_string_list(full.skip(i as int)) == spec_encode_string_list(full),
        decreases items@.len() - i,
    {
        let ghost before = acc@;
        push_le32(&mut acc, items[i].len() as u32);
        append_bytes(&mut acc, &items[i]);
        proof {
            let tail = full.skip(i as int);
            assert(tail[0] =~= items@[i as int]@);
            assert(tail.skip(1) =~= full.skip(i + 1));
            assert(acc@ =~= before + spec_encode_string_item(tail[0]));
            assert(before + spec_encode_string_item(tail[0]) + spec_encode_string_list(
                full.skip(i + 1),
            ) =~= before + (spec_encode_string_item(tail[0]) + spec_encode_string_list(
                tail.skip(1),
            )));
        }
        i = i + 1;
    }
    proof {
        assert(full.skip(full.len() as int) =~= Seq::<Seq<u8>>::empty());
        assert(acc@ + Seq::<u8>::empty() =~= acc@);
    }
    acc
}

/// Encodes integer elements as a run of eight-byte elements.
fn encode_int_items(items: &Vec<i64>) -> (r: Vec<u8>)
    ensures
        r@ == spec_encode_int_list(items@),
{
    let ghost full = items@;
    let mut acc: Vec<u8> = Vec::new();
    let mut i: usize = 0;
    proof {
        assert(full.skip(0) =~= full);
        assert(acc@ + spec_encode_int_list(full) =~= spec_encode_int_list(full));
    }
    while i < items.len()
        invariant
            i <= items@.len(),
            full == items@,
            acc@ + spec_encode_int_list(full.skip(i as int)) == spec_encode_int_list(full),
        decreases items@.len() - i,
    {
        let ghost before = acc@;
        push_le64(&mut acc, items[i] as u64);
        proof {
            let tail = full.skip(i as int);
            assert(tail[0] == items@[i as int]);
            assert(tail.skip(1) =~= full.skip(i + 1));
            assert(before + le64_bytes(tail[0] as u64) + spec_encode_int_list(full.skip(i + 1))
                =~= before + (le64_bytes(tail[0] as u64) + spec_encode_int_list(tail.skip(1))));
        }
        i = i + 1;
    }
    proof {
        assert(full.skip(full.len() as int) =~= Seq::<i64>::empty());
        assert(acc@ + Seq::<u8>::empty() =~= acc@);
    }
    acc
}

/// Compares two byte strings in the engine's lexicographic order.
fn bytes_less(a: &Vec<u8>, b: &Vec<u8>) -> (r: bool)
    ensures
        r == bytes_lt(a@, b@),
{
    let mut i: usize = 0;
    proof {
        assert(a@.skip(0) =~= a@);
        assert(b@.skip(0) =~= b@);
    }
    loop
        invariant
            i <= a.len(),
            i <= b.len(),
            bytes_lt(a@, b@) == bytes_lt(a@.skip(i as int), b@.skip(i as int)),
        decreases a.len() - i,
    {
        if i >= b.len() {
            return false;
        }
        if i >= a.len() {
            return true;
        }
        if a[i] < b[i] {
            return true;
        }
        if a[i] > b[i] {
            return false;
        }
        proof {
            assert(a@.skip(i as int).skip(1) =~= a@.skip(i + 1));
            assert(b@.skip(i as int).skip(1) =~= b@.skip(i + 1));
        }
        i = i + 1;
    }
}

/// Checks that string set elements are strictly increasing.
fn check_string_sorted(items: &Vec<Vec<u8>>) -> (r: bool)
    ensures
        r == set_string_sorted(items.deep_view()),
{
    let ghost dv = items.deep_view();
    if items.len() == 0 {
        return true;
    }
    let mut i: usize = 0;
    while i < items.len() - 1
        invariant
            items@.len() > 0,
            i < items@.len(),
            dv == items.deep_view(),
            forall|j: int| 0 <= j < i ==> bytes_lt(#[trigger] dv[j], dv[j + 1]),
        decreases items.len() - i,
    {
        proof {
            assert(dv[i as int] =~= items@[i as int]@);
            assert(dv[i + 1] =~= items@[i + 1]@);
        }
        if !bytes_less(&items[i], &items[i + 1]) {
            proof {
                assert(!bytes_lt(dv[i as int], dv[i + 1]));
            }
            return false;
        }
        i = i + 1;
    }
    true
}

/// Checks that integer set elements are strictly increasing.
fn check_int_sorted(items: &Vec<i64>) -> (r: bool)
    ensures
        r == set_int_sorted(items@),
{
    if items.len() == 0 {
        return true;
    }
    let mut i: usize = 0;
    while i < items.len() - 1
        invariant
            items@.len() > 0,
            i < items@.len(),
            forall|j: int| 0 <= j < i ==> #[trigger] items@[j] < items@[j + 1],
        decreases items.len() - i,
    {
        if items[i] >= items[i + 1] {
            return false;
        }
        i = i + 1;
    }
    true
}


/// Parses a run of map entries: length-prefixed key, length-prefixed
/// value.
pub open spec fn spec_parse_string_string_map(b: Seq<u8>) -> Option<Seq<(Seq<u8>, Seq<u8>)>>
    decreases b.len(),
{
    if b.len() == 0 {
        Some(Seq::empty())
    } else if b.len() < 4 {
        None
    } else {
        let k = le32_value(b.subrange(0, 4)) as int;
        if b.len() < 4 + k + 4 {
            None
        } else {
            let v = le32_value(b.subrange(4 + k, 4 + k + 4)) as int;
            if b.len() < 4 + k + 4 + v {
                None
            } else {
                match spec_parse_string_string_map(b.skip(4 + k + 4 + v)) {
                    None => None,
                    Some(rest) => Some(
                        seq![(b.subrange(4, 4 + k), b.subrange(4 + k + 4, 4 + k + 4 + v))] + rest,
                    ),
                }
            }
        }
    }
}

/// Parses a run of map entries: length-prefixed key, eight-byte value.
pub open spec fn spec_parse_string_int_map(b: Seq<u8>) -> Option<Seq<(Seq<u8>, i64)>>
    decreases b.len(),
{
    if b.len() == 0 {
        Some(Seq::empty())
    } else if b.len() < 4 {
        None
    } else {
        let k = le32_value(b.subrange(0, 4)) as int;
        if b.len() < 4 + k + 8 {
            None
        } else {
            match spec_parse_string_int_map(b.skip(4 + k + 8)) {
                None => None,
                Some(rest) => Some(
                    seq![
                        (b.subrange(4, 4 + k), le64_value(b.subrange(4 + k, 4 + k + 8)) as i64),
                    ] + rest,
                ),
            }
        }
    }
}

/// Parses a run of map entries: eight-byte key, length-prefixed value.
pub open spec fn spec_parse_int_string_map(b: Seq<u8>) -> Option<Seq<(i64, Seq<u8>)>>
    decreases b.len(),
{
    if b.len() == 0 {
        Some(Seq::empty())
    } else if b.len() < 12 {
        None
    } else {
        let v = le32_value(b.subrange(8, 12)) as int;
        if b.len() < 12 + v {
            None
        } else {
            match spec_parse_int_string_map(b.skip(12 + v)) {
                None => None,
                Some(rest) => Some(
                    seq![(le64_value(b.subrange(0, 8)) as i64, b.subrange(12, 12 + v))] + rest,
                ),
            }
        }
    }
}

/// Parses a run of map entries: eight-byte key, eight-byte value.
pub open spec fn spec_parse_int_int_map(b: Seq<u8>) -> Option<Seq<(i64, i64)>>
    decreases b.len(),
{
    if b.len() == 0 {
        Some(Seq::empty())
    } else if b.len() < 16 {
        None
    } else {
        match spec_parse_int_int_map(b.skip(16)) {
            None => None,
            Some(rest) => Some(
                seq![
                    (le64_value(b.subrange(0, 8)) as i64, le64_value(b.subrange(8, 16)) as i64),
                ] + rest,
            ),
        }
    }
}

/// The encoding of a map with byte-string keys and values.
pub open spec fn spec_encode_string_string_map(m: Seq<(Seq<u8>, Seq<u8>)>) -> Seq<u8>
    decreases m.len(),
{
    if m.len() == 0 {
        Seq::empty()
    } else {
        spec_encode_string_item(m[0].0) + spec_encode_string_item(m[0].1)
            + spec_encode_string_string_map(m.skip(1))
    }
}

/// The encoding of a map with byte-string keys and integer values.
pub open spec fn spec_encode_string_int_map(m: Seq<(Seq<u8>, i64)>) -> Seq<u8>
    decreases m.len(),
{
    if m.len() == 0 {
        Seq::empty()
    } else {
        spec_encode_string_item(m[0].0) + le64_bytes(m[0].1 as u64) + spec_encode_string_int_map(
            m.skip(1),
        )
    }
}

/// The encoding of a map with integer keys and byte-string values.
pub open spec fn spec_encode_int_string_map(m: Seq<(i64, Seq<u8>)>) -> Seq<u8>
    decreases m.len(),
{
    if m.len() == 0 {
        Seq::empty()
    } else {
        le64_bytes(m[0].0 as u64) + spec_encode_string_item(m[0].1) + spec_encode_int_string_map(
            m.skip(1),
        )
    }
}

/// The encoding of a map with integer keys and values.
pub open spec fn spec_encode_int_int_map(m: Seq<(i64, i64)>) -> Seq<u8>
    decreases m.len(),
{
    if m.len() == 0 {
        Seq::empty()
    } else {
        le64_bytes(m[0].0 as u64) + le64_bytes(m[0].1 as u64) + spec_encode_int_int_map(m.skip(1))
    }
}

/// Parses the entries of a string-to-string map value.
fn parse_string_string_map(b: &Vec<u8>) -> (r: Option<Vec<(Vec<u8>, Vec<u8>)>>)
    ensures
        match r {
            Some(items) => spec_parse_string_string_map(b@) == Some(items.deep_view()),
            None => spec_parse_string_string_map(b@) is None,
        },
{
    let mut items: Vec<(Vec<u8>, Vec<u8>)> = Vec::new();
    let mut off: usize = 0;
    proof {
        assert(b@.skip(0) =~= b@);
        match spec_parse_string_string_map(b@) {
            None => {},
            Some(rest) => {
                assert(items.deep_view() + rest =~= rest);
            },
        }
    }
    while off < b.len()
        invariant
            off <= b.len(),
            spec_parse_string_string_map(b@) == (match spec_parse_string_string_map(
                b@.skip(off as int),
            ) {
                None => None::<Seq<(Seq<u8>, Seq<u8>)>>,
                Some(rest) => Some(items.deep_view() + rest),
            }),
        decreases b.len() - off,
    {
        let ghost suffix = b@.skip(off as int);
        if b.len() - off < 4 {
            return None;
        }
        let k32 = read_le32(b, off);
        proof {
            assert(suffix.subrange(0, 4) =~= b@.subrange(off as int, off + 4));
        }
        let k = k32 as usize;
        if b.len() - off - 4 < k {
            proof {
                assert(suffix.len() < 4 + k32 as int + 4);
            }
            return None;
        }
        if b.len() - off - 4 - k < 4 {
            proof {
                assert(suffix.len() < 4 + k32 as int + 4);
            }
            return None;
        }
        let v32 = read_le32(b, off + 4 + k);
        proof {
            assert(suffix.subrange(4 + k32 as int, 4 + k32 as int + 4) =~= b@.subrange(
                off + 4 + k,
                off + 4 + k + 4,
            ));
        }
        let v = v32 as usize;
        if b.len() - off - 4 - k - 4 < v {
            proof {
                assert(suffix.len() < 4 + k32 as int + 4 + v32 as int);
            }
            return None;
        }
        let key = copy_range(b, off + 4, k);
        let val = copy_range(b, off + 4 + k + 4, v);
        proof {
            assert(suffix.subrange(4, 4 + k32 as int) =~= b@.subrange(off + 4, off + 4 + k));
            assert(suffix.subrange(4 + k32 as int + 4, 4 + k32 as int + 4 + v32 as int)
                =~= b@.subrange(off + 4 + k + 4, off + 4 + k + 4 + v));
            assert(suffix.skip(4 + k32 as int + 4 + v32 as int) =~= b@.skip(off + 4 + k + 4 + v));
        }
        let ghost pre = items.deep_view();
        let ghost entry = (suffix.subrange(4, 4 + k32 as int), suffix.subrange(
            4 + k32 as int + 4,
            4 + k32 as int + 4 + v32 as int,
        ));
        items.push((key, val));
        proof {
            assert forall|j: int| 0 <= j < pre.len() implies #[trigger] items.deep_view()[j]
                == pre[j] by {}
            assert(items.deep_view()[pre.len() as int].0 =~= entry.0);
            assert(items.deep_view()[pre.len() as int].1 =~= entry.1);
            assert(items.deep_view() =~= pre.push(entry));
            match spec_parse_string_string_map(b@.skip(off + 4 + k + 4 + v)) {
                None => {},
                Some(rest2) => {
                    assert(pre + (seq![entry] + rest2) =~= items.deep_view() + rest2);
                },
            }
        }
        off = off + 4 + k + 4 + v;
    }
    proof {
        assert(b@.skip(b@.len() as int) =~= Seq::<u8>::empty());
        assert(items.deep_view() + Seq::<(Seq<u8>, Seq<u8>)>::empty() =~= items.deep_view());
    }
    Some(items)
}

/// Parses the entries of a string-to-integer map value.
fn parse_string_int_map(b: &Vec<u8>) -> (r: Option<Vec<(Vec<u8>, i64)>>)
    ensures
        match r {
            Some(items) => spec_parse_string_int_map(b@) == Some(items.deep_view()),
            None => spec_parse_string_int_map(b@) is None,
        },
{
    let mut items: Vec<(Vec<u8>, i64)> = Vec::new();
    let mut off: usize = 0;
    proof {
        assert(b@.skip(0) =~= b@);
        match spec_parse_string_int_map(b@) {
            None => {},
            Some(rest) => {
                assert(items.deep_view() + rest =~= rest);
            },
        }
    }
    while off < b.len()
        invariant
            off <= b.len(),
            spec_parse_string_int_map(b@) == (match spec_parse_string_int_map(
                b@.skip(off as int),
            ) {
                None => None::<Seq<(Seq<u8>, i64)>>,
                Some(rest) => Some(items.deep_view() + rest),
            }),
        decreases b.len() - off,
    {
        let ghost suffix = b@.skip(off as int);
        if b.len() - off < 4 {
            return None;
        }
        let k32 = read_le32(b, off);
        proof {
            assert(suffix.subrange(0, 4) =~= b@.subrange(off as int, off + 4));
        }
        let k = k32 as usize;
        if b.len() - off - 4 < k {
            proof {
                assert(suffix.len() < 4 + k32 as int + 8);
            }
            return None;
        }
        if b.len() - off - 4 - k < 8 {
            proof {
                assert(suffix.len() < 4 + k32 as int + 8);
            }
            return None;
        }
        let key = copy_range(b, off + 4, k);
        let word = read_le64(b, off + 4 + k);
        proof {
            assert(suffix.subrange(4, 4 + k32 as int) =~= b@.subrange(off + 4, off + 4 + k));
            assert(suffix.subrange(4 + k32 as int, 4 + k32 as int + 8) =~= b@.subrange(
                off + 4 + k,
                off + 4 + k + 8,
            ));
            assert(suffix.skip(4 + k32 as int + 8) =~= b@.skip(off + 4 + k + 8));
        }
        let ghost pre = items.deep_view();
        let ghost entry = (
            suffix.subrange(4, 4 + k32 as int),
            le64_value(suffix.subrange(4 + k32 as int, 4 + k32 as int + 8)) as i64,
        );
        items.push((key, word as i64));
        proof {
            assert forall|j: int| 0 <= j < pre.len() implies #[trigger] items.deep_view()[j]
                == pre[j] by {}
            assert(items.deep_view()[pre.len() as int].0 =~= entry.0);
            assert(items.deep_view()[pre.len() as int].1 == entry.1);
            assert(items.deep_view() =~= pre.push(entry));
            match spec_parse_string_int_map(b@.skip(off + 4 + k + 8)) {
                None => {},
                Some(rest2) => {
                    assert(pre + (seq![entry] + rest2) =~= items.deep_view() + rest2);
                },
            }
        }
        off = off + 4 + k + 8;
    }
    proof {
        assert(b@.skip(b@.len() as int) =~= Seq::<u8>::empty());
        assert(items.deep_view() + Seq::<(Seq<u8>, i64)>::empty() =~= items.deep_view());
    }
    Some(items)
}

/// Parses the entries of an integer-to-string map value.
fn parse_int_string_map(b: &Vec<u8>) -> (r: Option<Vec<(i64, Vec<u8>)>>)
    ensures
        match r {
            Some(items) => spec_parse_int_string_map(b@) == Some(items.deep_view()),
            None => spec_parse_int_string_map(b@) is None,
        },
{
    let mut items: Vec<(i64, Vec<u8>)> = Vec::new();
    let mut off: usize = 0;
    proof {
        assert(b@.skip(0) =~= b@);
        match spec_parse_int_string_map(b@) {
            None => {},
            Some(rest) => {
                assert(items.deep_view() + rest =~= rest);
            },
        }
    }
    while off < b.len()
        invariant
            off <= b.len(),
            spec_parse_int_string_map(b@) == (match spec_parse_int_string_map(
                b@.skip(off as int),
            ) {
                None => None::<Seq<(i64, Seq<u8>)>>,
                Some(rest) => Some(items.deep_view() + rest),
            }),
        decreases b.len() - off,
    {
        let ghost suffix = b@.skip(off as int);
        if b.len() - off < 12 {
            return None;
        }
        let word = read_le64(b, off);
        let v32 = read_le32(b, off + 8);
        proof {
            assert(suffix.subrange(0, 8) =~= b@.subrange(off as int, off + 8));
            assert(suffix.subrange(8, 12) =~= b@.subrange(off + 8, off + 12));
        }
        let v = v32 as usize;
        if b.len() - off - 12 < v {
            proof {
                assert(suffix.len() < 12 + v32 as int);
            }
            return None;
        }
        let val = copy_range(b, off + 12, v);
        proof {
            assert(suffix.subrange(12, 12 + v32 as int) =~= b@.subrange(off + 12, off + 12 + v));
            assert(suffix.skip(12 + v32 as int) =~= b@.skip(off + 12 + v));
        }
        let ghost pre = items.deep_view();
        let ghost entry = (
            le64_value(suffix.subrange(0, 8)) as i64,
            suffix.subrange(12, 12 + v32 as int),
        );
        items.push((word as i64, val));
        proof {
            assert forall|j: int| 0 <= j < pre.len() implies #[trigger] items.deep_view()[j]
                == pre[j] by {}
            assert(items.deep_view()[pre.len() as int].0 == entry.0);
            assert(items.deep_view()[pre.len() as int].1 =~= entry.1);
            assert(items.deep_view() =~= pre.push(entry));
            match spec_parse_int_string_map(b@.skip(off + 12 + v)) {
                None => {},
                Some(rest2) => {
                    assert(pre + (seq![entry] + rest2) =~= items.deep_view() + rest2);
                },
            }
        }
        off = off + 12 + v;
    }
    proof {
        assert(b@.skip(b@.len() as int) =~= Seq::<u8>::empty());
        assert(items.deep_view() + Seq::<(i64, Seq<u8>)>::empty() =~= items.deep_view());
    }
    Some(items)
}

/// Parses the entries of an integer-to-integer map value.
fn parse_int_int_map(b: &Vec<u8>) -> (r: Option<Vec<(i64, i64)>>)
    ensures
        match r {
            Some(items) => spec_parse_int_int_map(b@) == Some(items@),
            None => spec_parse_int_int_map(b@) is None,
        },
{
    let mut items: Vec<(i64, i64)> = Vec::new();
    let mut off: usize = 0;
    proof {
        assert(b@.skip(0) =~= b@);
        match spec_parse_int_int_map(b@) {
            None => {},
            Some(rest) => {
                assert(items@ + rest =~= rest);
            },
        }
    }
    while off < b.len()
        invariant
            off <= b.len(),
            spec_parse_int_int_map(b@) == (match spec_parse_int_int_map(b@.skip(off as int)) {
                None => None::<Seq<(i64, i64)>>,
                Some(rest) => Some(items@ + rest),
            }),
        decreases b.len() - off,
    {
        let ghost suffix = b@.skip(off as int);
        if b.len() - off < 16 {
            return None;
        }
        let kword = read_le64(b, off);
        let vword = read_le64(b, off + 8);
        proof {
            assert(suffix.subrange(0, 8) =~= b@.subrange(off as int, off + 8));
            assert(suffix.subrange(8, 16) =~= b@.subrange(off + 8, off + 16));
            assert(suffix.skip(16) =~= b@.skip(off + 16));
        }
        let ghost pre = items@;
        let ghost entry = (
            le64_value(suffix.subrange(0, 8)) as i64,
            le64_value(suffix.subrange(8, 16)) as i64,
        );
        items.push((kword as i64, vword as i64));
        proof {
            match spec_parse_int_int_map(b@.skip(off + 16)) {
                None => {},
                Some(rest2) => {
                    assert(pre + (seq![entry] + rest2) =~= items@ + rest2);
                },
            }
        }
        off = off + 16;
    }
    proof {
        assert(b@.skip(b@.len() as int) =~= Seq::<u8>::empty());
        assert(items@ + Seq::<(i64, i64)>::empty() =~= items@);
    }
    Some(items)
}

/// Encodes the entries of a string-to-string map, in order.
fn encode_string_string_map_items(items: &Vec<(Vec<u8>, Vec<u8>)>) -> (r: Vec<u8>)
    ensures
        r@ == spec_encode_string_string_map(items.deep_view()),
{
    let ghost full = items.deep_view();
    let mut acc: Vec<u8> = Vec::new();
    let mut i: usize = 0;
    proof {
        assert(full.skip(0) =~= full);
        assert(acc@ + spec_encode_string_string_map(full) =~= spec_encode_string_string_map(full));
    }
    while i < items.len()
        invariant
            i <= items@.len(),
            full == items.deep_view(),
            acc@ + spec_encode_string_string_map(full.skip(i as int))
                == spec_encode_string_string_map(full),
        decreases items@.len() - i,
    {
        let ghost before = acc@;
        push_le32(&mut acc, items[i].0.len() as u32);
        append_bytes(&mut acc, &items[i].0);
        push_le32(&mut acc, items[i].1.len() as u32);
        append_bytes(&mut acc, &items[i].1);
        proof {
            let tail = full.skip(i as int);
            assert(tail[0].0 =~= items@[i as int].0@);
            assert(tail[0].1 =~= items@[i as int].1@);
            assert(tail.skip(1) =~= full.skip(i + 1));
            assert(acc@ =~= before + (spec_encode_string_item(tail[0].0)
                + spec_encode_string_item(tail[0].1)));
            assert(before + (spec_encode_string_item(tail[0].0) + spec_encode_string_item(
                tail[0].1,
            )) + spec_encode_string_string_map(full.skip(i + 1)) =~= before + (
            spec_encode_string_item(tail[0].0) + spec_encode_string_item(tail[0].1)
                + spec_encode_string_string_map(tail.skip(1))));
        }
        i = i + 1;
    }
    proof {
        assert(full.skip(full.len() as int) =~= Seq::<(Seq<u8>, Seq<u8>)>::empty());
        assert(acc@ + Seq::<u8>::empty() =~= acc@);
    }
    acc
}

/// Encodes the entries of a string-to-integer map, in order.
fn encode_string_int_map_items(items: &Vec<(Vec<u8>, i64)>) -> (r: Vec<u8>)
    ensures
        r@ == spec_encode_string_int_map(items.deep_view()),
{
    let ghost full = items.deep_view();
    let mut acc: Vec<u8> = Vec::new();
    let mut i: usize = 0;
    proof {
        assert(full.skip(0) =~= full);
        assert(acc@ + spec_encode_string_int_map(full) =~= spec_encode_string_int_map(full));
    }
    while i < items.len()
        invariant
            i <= items@.len(),
            full == items.deep_view(),
            acc@ + spec_encode_string_int_map(full.skip(i as int)) == spec_encode_string_int_map(
                full,
            ),
        decreases items@.len() - i,
    {
        let ghost before = acc@;
        push_le32(&mut acc, items[i].0.len() as u32);
        append_bytes(&mut acc, &items[i].0);
        push_le64(&mut acc, items[i].1 as u64);
        proof {
            let tail = full.skip(i as int);
            assert(tail[0].0 =~= items@[i as int].0@);
            assert(tail[0].1 == items@[i as int].1);
            assert(tail.skip(1) =~= full.skip(i + 1));
            assert(acc@ =~= before + (spec_encode_string_item(tail[0].0) + le64_bytes(
                tail[0].1 as u64,
            )));
            assert(before + (spec_encode_string_item(tail[0].0) + le64_bytes(tail[0].1 as u64))
                + spec_encode_string_int_map(full.skip(i + 1)) =~= before + (
            spec_encode_string_item(tail[0].0) + le64_bytes(tail[0].1 as u64)
                + spec_encode_string_int_map(tail.skip(1))));
        }
        i = i + 1;
    }
    proof {
        assert(full.skip(full.len() as int) =~= Seq::<(Seq<u8>, i64)>::empty());
        assert(acc@ + Seq::<u8>::empty() =~= acc@);
    }
    acc
}

/// Encodes the entries of an integer-to-string map, in order.
fn encode_int_string_map_items(items: &Vec<(i64, Vec<u8>)>) -> (r: Vec<u8>)
    ensures
        r@ == spec_encode_int_string_map(items.deep_view()),
{
    let ghost full = items.deep_view();
    let mut acc: Vec<u8> = Vec::new();
    let mut i: usize = 0;
    proof {
        assert(full.skip(0) =~= full);
        assert(acc@ + spec_encode_int_string_map(full) =~= spec_encode_int_string_map(full));
    }
    while i < items.len()
        invariant
            i <= items@.len(),
            full == items.deep_view(),
            acc@ + spec_encode_int_string_map(full.skip(i as int)) == spec_encode_int_string_map(
                full,
            ),
        decreases items@.len() - i,
    {
        let ghost before = acc@;
        push_le64(&mut acc, items[i].0 as u64);
        push_le32(&mut acc, items[i].1.len() as u32);
        append_bytes(&mut acc, &items[i].1);
        proof {
            let tail = full.skip(i as int);
            assert(tail[0].0 == items@[i as int].0);
            assert(tail[0].1 =~= items@[i as int].1@);
            assert(tail.skip(1) =~= full.skip(i + 1));
            assert(acc@ =~= before + (le64_bytes(tail[0].0 as u64) + spec_encode_string_item(
                tail[0].1,
            )));
            assert(before + (le64_bytes(tail[0].0 as u64) + spec_encode_string_item(tail[0].1))
                + spec_encode_int_string_map(full.skip(i + 1)) =~= before + (le64_bytes(
                tail[0].0 as u64,
            ) + spec_encode_string_item(tail[0].1) + spec_encode_int_string_map(tail.skip(1))));
        }
        i = i + 1;
    }
    proof {
        assert(full.skip(full.len() as int) =~= Seq::<(i64, Seq<u8>)>::empty());
        assert(acc@ + Seq::<u8>::empty() =~= acc@);
    }
    acc
}

/// Encodes the entries of an integer-to-integer map, in order.
fn encode_int_int_map_items(items: &Vec<(i64, i64)>) -> (r: Vec<u8>)
    ensures
        r@ == spec_encode_int_int_map(items@),
{
    let ghost full = items@;
    let mut acc: Vec<u8> = Vec::new();
    let mut i: usize = 0;
    proof {
        assert(full.skip(0) =~= full);
        assert(acc@ + spec_encode_int_int_map(full) =~= spec_encode_int_int_map(full));
    }
    while i < items.len()
        invariant
            i <= items@.len(),
            full == items@,
            acc@ + spec_encode_int_int_map(full.skip(i as int)) == spec_encode_int_int_map(full),
        decreases items@.len() - i,
    {
        let ghost before = acc@;
        push_le64(&mut acc, items[i].0 as u64);
        push_le64(&mut acc, items[i].1 as u64);
        proof {
            let tail = full.skip(i as int);
            assert(tail[0] == items@[i as int]);
            assert(tail.skip(1) =~= full.skip(i + 1));
            assert(acc@ =~= before + (le64_bytes(tail[0].0 as u64) + le64_bytes(
                tail[0].1 as u64,
            )));
            assert(before + (le64_bytes(tail[0].0 as u64) + le64_bytes(tail[0].1 as u64))
                + spec_encode_int_int_map(full.skip(i + 1)) =~= before + (le64_bytes(
                tail[0].0 as u64,
            ) + le64_bytes(tail[0].1 as u64) + spec_encode_int_int_map(tail.skip(1))));
        }
        i = i + 1;
    }
    proof {
        assert(full.skip(full.len() as int) =~= Seq::<(i64, i64)>::empty());
        assert(acc@ + Seq::<u8>::empty() =~= acc@);
    }
    acc
}

/// Checks that the byte-string keys of map entries are strictly
/// increasing.
fn check_bytes_keys_sorted<V: DeepView>(m: &Vec<(Vec<u8>, V)>) -> (r: bool)
    ensures
        r == map_bytes_keys_sorted(m.deep_view()),
{
    let ghost dv = m.deep_view();
    if m.len() == 0 {
        return true;
    }
    let mut i: usize = 0;
    while i < m.len() - 1
        invariant
            m@.len() > 0,
            i < m@.len(),
            dv == m.deep_view(),
            forall|j: int| 0 <= j < i ==> bytes_lt((#[trigger] dv[j]).0, dv[j + 1].0),
        decreases m.len() - i,
    {
        proof {
            assert(dv[i as int].0 =~= m@[i as int].0@);
            assert(dv[i + 1].0 =~= m@[i + 1].0@);
        }
        if !bytes_less(&m[i].0, &m[i + 1].0) {
            proof {
                assert(!bytes_lt(dv[i as int].0, dv[i + 1].0));
            }
            return false;
        }
        i = i + 1;
    }
    true
}

/// Checks that the integer keys of map entries are strictly increasing.
fn check_int_keys_sorted<V: DeepView>(m: &Vec<(i64, V)>) -> (r: bool)
    ensures
        r == map_int_keys_sorted(m.deep_view()),
{
    let ghost dv = m.deep_view();
    if m.len() == 0 {
        return true;
    }
    let mut i: usize = 0;
    while i < m.len() - 1
        invariant
            m@.len() > 0,
            i < m@.len(),
            dv == m.deep_view(),
            forall|j: int| 0 <= j < i ==> (#[trigger] dv[j]).0 < dv[j + 1].0,
        decreases m.len() - i,
    {
        proof {
            assert(dv[i as int].0 == m@[i as int].0);
            assert(dv[i + 1].0 == m@[i + 1].0);
        }
        if m[i].0 >= m[i + 1].0 {
            proof {
                assert(!(dv[i as int].0 < dv[i + 1].0));
            }
            return false;
        }
        i = i + 1;
    }
    true
}

/// For integer-pair vectors the deep view is the view itself.
pub proof fn lemma_int_pairs_deep_view(v: &Vec<(i64, i64)>)
    ensures
        v.deep_view() == v@,
{
    assert(v.deep_view() =~~= v@);
}

/// The datatype code a value travels under.
pub open spec fn spec_value_datatype(m: ValueModel) -> u32 {
    match m {
        ValueModel::VString(_) => HYPERDATATYPE_STRING,
        ValueModel::VInt(_) => HYPERDATATYPE_INT64,
        ValueModel::VListString(_) => HYPERDATATYPE_LIST_STRING,
        ValueModel::VListInt(_) => HYPERDATATYPE_LIST_INT64,
        ValueModel::VSetString(_) => HYPERDATATYPE_SET_STRING,
        ValueModel::VSetInt(_) => HYPERDATATYPE_SET_INT64,
        ValueModel::VMapStringString(_) => HYPERDATATYPE_MAP_STRING_STRING,
        ValueModel::VMapStringInt(_) => HYPERDATATYPE_MAP_STRING_INT64,
        ValueModel::VMapIntString(_) => HYPERDATATYPE_MAP_INT64_STRING,
        ValueModel::VMapIntInt(_) => HYPERDATATYPE_MAP_INT64_INT64,
        ValueModel::VDocument(_) => HYPERDATATYPE_DOCUMENT,
    }
}

/// The bytes a value travels as.
pub open spec fn spec_encode_value(m: ValueModel) -> Seq<u8> {
    match m {
        ValueModel::VString(b) => b,
        ValueModel::VInt(i) => le64_bytes(i as u64),
        ValueModel::VListString(l) => spec_encode_string_list(l),
        ValueModel::VListInt(l) => spec_encode_int_list(l),
        ValueModel::VSetString(l) => spec_encode_string_list(l),
        ValueModel::VSetInt(l) => spec_encode_int_list(l),
        ValueModel::VMapStringString(m) => spec_encode_string_string_map(m),
        ValueModel::VMapStringInt(m) => spec_encode_string_int_map(m),
        ValueModel::VMapIntString(m) => spec_encode_int_string_map(m),
        ValueModel::VMapIntInt(m) => spec_encode_int_int_map(m),
        ValueModel::VDocument(d) => d,
    }
}

/// Every byte string inside a list, set or map value fits a 32-bit
/// length prefix.
pub open spec fn value_sizes_fit(m: ValueModel) -> bool {
    match m {
        ValueModel::VListString(l) => forall|i: int|
            0 <= i < l.len() ==> (#[trigger] l[i]).len() <= u32::MAX,
        ValueModel::VSetString(l) => forall|i: int|
            0 <= i < l.len() ==> (#[trigger] l[i]).len() <= u32::MAX,
        ValueModel::VMapStringString(e) => forall|i: int|
            0 <= i < e.len() ==> (#[trigger] e[i]).0.len() <= u32::MAX && e[i].1.len()
                <= u32::MAX,
        ValueModel::VMapStringInt(e) => forall|i: int|
            0 <= i < e.len() ==> (#[trigger] e[i]).0.len() <= u32::MAX,
        ValueModel::VMapIntString(e) => forall|i: int|
            0 <= i < e.len() ==> (#[trigger] e[i]).1.len() <= u32::MAX,
        _ => true,
    }
}

/// The value a tagged byte string carries, or the complaint its decoder
/// raises.
pub open spec fn spec_decode_value(datatype: u32, b: Seq<u8>) -> Result<ValueModel, Seq<char>> {
    if datatype == HYPERDATATYPE_STRING {
        Ok(ValueModel::VString(b))
    } else if datatype == HYPERDATATYPE_INT64 {
        if b.len() == 8 {
            Ok(ValueModel::VInt(le64_value(b) as i64))
        } else {
            Err("Server sent a malformed int"@)
        }
    } else if datatype == HYPERDATATYPE_DOCUMENT {
        Ok(ValueModel::VDocument(b))
    } else if datatype == HYPERDATATYPE_LIST_STRING {
        match spec_parse_string_list(b) {
            Some(l) => Ok(ValueModel::VListString(l)),
            None => Err("Server sent a corrupted list of strings"@),
        }
    } else if datatype == HYPERDATATYPE_LIST_INT64 {
        match spec_parse_int_list(b) {
            Some(l) => Ok(ValueModel::VListInt(l)),
            None => Err("Server sent a corrupted list of integers"@),
        }
    } else if datatype == HYPERDATATYPE_SET_STRING {
        match spec_parse_string_list(b) {
            Some(l) => if set_string_sorted(l) {
                Ok(ValueModel::VSetString(l))
            } else {
                Err("Server sent a corrupted set of strings"@)
            },
            None => Err("Server sent a corrupted set of strings"@),
        }
    } else if datatype == HYPERDATATYPE_SET_INT64 {
        match spec_parse_int_list(b) {
            Some(l) => if set_int_sorted(l) {
                Ok(ValueModel::VSetInt(l))
            } else {
                Err("Server sent a corrupted set of integers"@)
            },
            None => Err("Server sent a corrupted set of integers"@),
        }
    } else if datatype == HYPERDATATYPE_MAP_STRING_STRING {
        match spec_parse_string_string_map(b) {
            Some(m) => if map_bytes_keys_sorted(m) {
                Ok(ValueModel::VMapStringString(m))
            } else {
                Err("Server sent a corrupted map of strings to strings"@)
            },
            None => Err("Server sent a corrupted map of strings to strings"@),
        }
    } else if datatype == HYPERDATATYPE_MAP_STRING_INT64 {
        match spec_parse_string_int_map(b) {
            Some(m) => if map_bytes_keys_sorted(m) {
                Ok(ValueModel::VMapStringInt(m))
            } else {
                Err("Server sent a corrupted map of strings to integers"@)
            },
            None => Err("Server sent a corrupted map of strings to integers"@),
        }
    } else if datatype == HYPERDATATYPE_MAP_INT64_STRING {
        match spec_parse_int_string_map(b) {
            Some(m) => if map_int_keys_sorted(m) {
                Ok(ValueModel::VMapIntString(m))
            } else {
                Err("Server sent a corrupted map of integers to strings"@)
            },
            None => Err("Server sent a corrupted map of integers to strings"@),
        }
    } else if datatype == HYPERDATATYPE_MAP_INT64_INT64 {
        match spec_parse_int_int_map(b) {
            Some(m) => if map_int_keys_sorted(m) {
                Ok(ValueModel::VMapIntInt(m))
            } else {
                Err("Server sent a corrupted map of integers to integers"@)
            },
            None => Err("Server sent a corrupted map of integers to integers"@),
        }
    } else {
        Err("Unrecognized datatype"@)
    }
}

/// Decodes one tagged attribute value.
#[verifier::rlimit(100)]
#[verifier::spinoff_prover]
pub fn decode_value(datatype: u32, value: &Vec<u8>) -> (r: Result<HyperValue, String>)
    ensures
        match r {
            Ok(v) => spec_decode_value(datatype, value@) == Ok::<ValueModel, Seq<char>>(
                v.deep_view(),
            ) && value_valid(v.deep_view()),
            Err(e) => spec_decode_value(datatype, value@) == Err::<ValueModel, Seq<char>>(e@),
        },
{
    if datatype == HYPERDATATYPE_STRING {
        let b = clone_bytes(value);
        proof {
            crate::client_types::lemma_bytes_deep_view(&b);
        }
        Ok(HyperValue::HyperString(b))
    } else if datatype == HYPERDATATYPE_INT64 {
        if value.len() == 8 {
            let w = read_le64(value, 0);
            proof {
                assert(value@.subrange(0, 8) =~= value@);
            }
            Ok(HyperValue::HyperInt(w as i64))
        } else {
            Err("Server sent a malformed int".to_string())
        }
    } else if datatype == HYPERDATATYPE_DOCUMENT {
        let b = clone_bytes(value);
        proof {
            crate::client_types::lemma_bytes_deep_view(&b);
        }
        Ok(HyperValue::HyperDocument(b))
    } else if datatype == HYPERDATATYPE_LIST_STRING {
        match parse_string_items(value) {
            Some(items) => Ok(HyperValue::HyperListString(items)),
            None => Err("Server sent a corrupted list of strings".to_string()),
        }
    } else if datatype == HYPERDATATYPE_LIST_INT64 {
        match parse_int_items(value) {
            Some(items) => {
                proof {
                    crate::client_types::lemma_ints_deep_view(&items);
                }
                Ok(HyperValue::HyperListInt(items))
            },
            None => Err("Server sent a corrupted list of integers".to_string()),
        }
    } else if datatype == HYPERDATATYPE_SET_STRING {
        match parse_string_items(value) {
            Some(items) => {
                if check_string_sorted(&items) {
                    Ok(HyperValue::HyperSetString(items))
                } else {
                    Err("Server sent a corrupted set of strings".to_string())
                }
            },
            None => Err("Server sent a corrupted set of strings".to_string()),
        }
    } else if datatype == HYPERDATATYPE_SET_INT64 {
        match parse_int_items(value) {
            Some(items) => {
                if check_int_sorted(&items) {
                    proof {
                        crate::client_types::lemma_ints_deep_view(&items);
                    }
                    Ok(HyperValue::HyperSetInt(items))
                } else {
                    Err("Server sent a corrupted set of integers".to_string())
                }
            },
            None => Err("Server sent a corrupted set of integers".to_string()),
        }
    } else if datatype == HYPERDATATYPE_MAP_STRING_STRING {
        match parse_string_string_map(value) {
            Some(items) => {
                if check_bytes_keys_sorted(&items) {
                    Ok(HyperValue::HyperMapStringString(items))
                } else {
                    Err("Server sent a corrupted map of strings to strings".to_string())
                }
            },
            None => Err("Server sent a corrupted map of strings to strings".to_string()),
        }
    } else if datatype == HYPERDATATYPE_MAP_STRING_INT64 {
        match parse_string_int_map(value) {
            Some(items) => {
                if check_bytes_keys_sorted(&items) {
                    Ok(HyperValue::HyperMapStringInt(items))
                } else {
                    Err("Server sent a corrupted map of strings to integers".to_string())
                }
            },
            None => Err("Server sent a corrupted map of strings to integers".to_string()),
        }
    } else if datatype == HYPERDATATYPE_MAP_INT64_STRING {
        match parse_int_string_map(value) {
            Some(items) => {
                if check_int_keys_sorted(&items) {
                    Ok(HyperValue::HyperMapIntString(items))
                } else {
                    Err("Server sent a corrupted map of integers to strings".to_string())
                }
            },
            None => Err("Server sent a corrupted map of integers to strings".to_string()),
        }
    } else if datatype == HYPERDATATYPE_MAP_INT64_INT64 {
        match parse_int_int_map(value) {
            Some(items) => {
                if check_int_keys_sorted(&items) {
                    proof {
                        lemma_int_pairs_deep_view(&items);
                    }
                    Ok(HyperValue::HyperMapIntInt(items))
                } else {
                    Err("Server sent a corrupted map of integers to integers".to_string())
                }
            },
            None => Err("Server sent a corrupted map of integers to integers".to_string()),
        }
    } else {
        Err("Unrecognized datatype".to_string())
    }
}

/// Encodes one value as the bytes and datatype code it travels under.
pub fn encode_value(v: &HyperValue) -> (r: (Vec<u8>, u32))
    ensures
        r.0@ == spec_encode_value(v.deep_view()),
        r.1 == spec_value_datatype(v.deep_view()),
{
    match v {
        HyperValue::HyperString(b) => {
            let c = clone_bytes(b);
            proof {
                crate::client_types::lemma_bytes_deep_view(b);
            }
            (c, HYPERDATATYPE_STRING)
        },
        HyperValue::HyperInt(i) => {
            let mut acc: Vec<u8> = Vec::new();
            push_le64(&mut acc, *i as u64);
            proof {
                assert(acc@ =~= le64_bytes(*i as u64));
            }
            (acc, HYPERDATATYPE_INT64)
        },
        HyperValue::HyperListString(l) => (encode_string_items(l), HYPERDATATYPE_LIST_STRING),
        HyperValue::HyperListInt(l) => {
            proof {
                crate::client_types::lemma_ints_deep_view(l);
            }
            (encode_int_items(l), HYPERDATATYPE_LIST_INT64)
        },
        HyperValue::HyperSetString(l) => (encode_string_items(l), HYPERDATATYPE_SET_STRING),
        HyperValue::HyperSetInt(l) => {
            proof {
                crate::client_types::lemma_ints_deep_view(l);
            }
            (encode_int_items(l), HYPERDATATYPE_SET_INT64)
        },
        HyperValue::HyperMapStringString(m) => (
            encode_string_string_map_items(m),
            HYPERDATATYPE_MAP_STRING_STRING,
        ),
        HyperValue::HyperMapStringInt(m) => (
            encode_string_int_map_items(m),
            HYPERDATATYPE_MAP_STRING_INT64,
        ),
        HyperValue::HyperMapIntString(m) => (
            encode_int_string_map_items(m),
            HYPERDATATYPE_MAP_INT64_STRING,
        ),
        HyperValue::HyperMapIntInt(m) => {
            proof {
                lemma_int_pairs_deep_view(m);
            }
            (encode_int_int_map_items(m), HYPERDATATYPE_MAP_INT64_INT64)
        },
        HyperValue::HyperDocument(d) => {
            let c = clone_bytes(d);
            proof {
                crate::client_types::lemma_bytes_deep_view(d);
            }
            (c, HYPERDATATYPE_DOCUMENT)
        },
    }
}

/// Parsing an encoded list of byte strings gives the list back.
pub proof fn lemma_string_list_round_trip(l: Seq<Seq<u8>>)
    requires
        forall|i: int| 0 <= i < l.len() ==> (#[trigger] l[i]).len() <= u32::MAX,
    ensures
        spec_parse_string_list(spec_encode_string_list(l)) == Some(l),
    decreases l.len(),
{
    if l.len() == 0 {
        assert(spec_parse_string_list(spec_encode_string_list(l)) == Some(Seq::<Seq<u8>>::empty()));
        assert(Seq::<Seq<u8>>::empty() =~= l);
    } else {
        let head = l[0];
        let rest = l.skip(1);
        assert(forall|i: int| 0 <= i < rest.len() ==> (#[trigger] rest[i]).len() <= u32::MAX);
        lemma_string_list_round_trip(rest);
        let enc = spec_encode_string_list(l);
        let enc_rest = spec_encode_string_list(rest);
        let n = head.len() as int;
        assert(enc =~= le32_bytes(head.len() as u32) + head + enc_rest);
        assert(enc.len() >= 4);
        assert(enc.subrange(0, 4) =~= le32_bytes(head.len() as u32));
        lemma_le32_round(head.len() as u32);
        assert(le32_value(enc.subrange(0, 4)) as int == n);
        assert(enc.len() >= 4 + n);
        assert(enc.subrange(4, 4 + n) =~= head);
        assert(enc.skip(4 + n) =~= enc_rest);
        assert(seq![head] + rest =~= l);
    }
}

/// Parsing an encoded list of integers gives the list back.
pub proof fn lemma_int_list_round_trip(l: Seq<i64>)
    ensures
        spec_parse_int_list(spec_encode_int_list(l)) == Some(l),
    decreases l.len(),
{
    if l.len() == 0 {
        assert(spec_parse_int_list(spec_encode_int_list(l)) == Some(Seq::<i64>::empty()));
        assert(Seq::<i64>::empty() =~= l);
    } else {
        let rest = l.skip(1);
        lemma_int_list_round_trip(rest);
        let enc = spec_encode_int_list(l);
        let enc_rest = spec_encode_int_list(rest);
        assert(enc =~= le64_bytes(l[0] as u64) + enc_rest);
        assert(enc.len() >= 8);
        assert(enc.subrange(0, 8) =~= le64_bytes(l[0] as u64));
        lemma_le64_round(l[0] as u64);
        lemma_i64_bits_round(l[0]);
        assert(enc.skip(8) =~= enc_rest);
        assert(seq![l[0]] + rest =~= l);
    }
}

/// Splitting a concatenation at the seam gives back its parts.
pub proof fn lemma_concat_split<A>(a: Seq<A>, b: Seq<A>)
    ensures
        (a + b).subrange(0, a.len() as int) == a,
        (a + b).skip(a.len() as int) == b,
{
    assert((a + b).subrange(0, a.len() as int) =~= a);
    assert((a + b).skip(a.len() as int) =~= b);
}

/// A subrange inside the first part of a concatenation.
pub proof fn lemma_concat_subrange_left<A>(a: Seq<A>, b: Seq<A>, i: int, j: int)
    requires
        0 <= i <= j <= a.len(),
    ensures
        (a + b).subrange(i, j) == a.subrange(i, j),
{
    assert((a + b).subrange(i, j) =~= a.subrange(i, j));
}

/// A subrange inside the second part of a concatenation.
pub proof fn lemma_concat_subrange_right<A>(a: Seq<A>, b: Seq<A>, i: int, j: int)
    requires
        a.len() <= i <= j <= a.len() + b.len(),
    ensures
        (a + b).subrange(i, j) == b.subrange(i - a.len(), j - a.len()),
{
    assert((a + b).subrange(i, j) =~= b.subrange(i - a.len(), j - a.len()));
}

/// A sequence is its own full subrange.
pub proof fn lemma_subrange_full<A>(a: Seq<A>)
    ensures
        a.subrange(0, a.len() as int) == a,
{
    assert(a.subrange(0, a.len() as int) =~= a);
}

/// The layout of one encoded string-to-string entry in front of a
/// tail: where its length prefixes, key, value and the tail stand.
#[verifier::spinoff_prover]
proof fn lemma_string_string_entry_layout(key: Seq<u8>, val: Seq<u8>, tail: Seq<u8>)
    requires
        key.len() <= u32::MAX,
        val.len() <= u32::MAX,
    ensures
        ({
            let enc = spec_encode_string_item(key) + spec_encode_string_item(val) + tail;
            let k = key.len() as int;
            let v = val.len() as int;
            &&& enc.len() == 8 + k + v + tail.len()
            &&& le32_value(enc.subrange(0, 4)) as int == k
            &&& enc.subrange(4, 4 + k) == key
            &&& le32_value(enc.subrange(4 + k, 4 + k + 4)) as int == v
            &&& enc.subrange(4 + k + 4, 4 + k + 4 + v) == val
            &&& enc.skip(4 + k + 4 + v) == tail
        }),
{
    let lk = le32_bytes(key.len() as u32);
    let lv = le32_bytes(val.len() as u32);
    let ik = spec_encode_string_item(key);
    let iv = spec_encode_string_item(val);
    let head = ik + iv;
    let enc = ik + iv + tail;
    let k = key.len() as int;
    let v = val.len() as int;
    assert(lk.len() == 4 && lv.len() == 4);
    assert(enc == head + tail);
    lemma_concat_split(head, tail);
    lemma_concat_split(ik, iv);
    lemma_concat_split(lk, key);
    lemma_concat_split(lv, val);
    // the key length prefix
    lemma_concat_subrange_left(head, tail, 0, 4);
    lemma_concat_subrange_left(ik, iv, 0, 4);
    lemma_concat_subrange_left(lk, key, 0, 4);
    lemma_subrange_full(lk);
    lemma_le32_round(key.len() as u32);
    // the key bytes
    lemma_concat_subrange_left(head, tail, 4, 4 + k);
    lemma_concat_subrange_left(ik, iv, 4, 4 + k);
    lemma_concat_subrange_right(lk, key, 4, 4 + k);
    lemma_subrange_full(key);
    // the value length prefix
    lemma_concat_subrange_left(head, tail, 4 + k, 4 + k + 4);
    lemma_concat_subrange_right(ik, iv, 4 + k, 4 + k + 4);
    lemma_concat_subrange_left(lv, val, 0, 4);
    lemma_subrange_full(lv);
    lemma_le32_round(val.len() as u32);
    // the value bytes
    lemma_concat_subrange_left(head, tail, 4 + k + 4, 4 + k + 4 + v);
    lemma_concat_subrange_right(ik, iv, 4 + k + 4, 4 + k + 4 + v);
    lemma_concat_subrange_right(lv, val, 4, 4 + v);
    lemma_subrange_full(val);
}

/// Parsing an encoded string-to-string map gives the entries back.
#[verifier::rlimit(100)]
#[verifier::spinoff_prover]
pub proof fn lemma_string_string_map_round_trip(m: Seq<(Seq<u8>, Seq<u8>)>)
    requires
        forall|i: int|
            0 <= i < m.len() ==> (#[trigger] m[i]).0.len() <= u32::MAX && m[i].1.len()
                <= u32::MAX,
    ensures
        spec_parse_string_string_map(spec_encode_string_string_map(m)) == Some(m),
    decreases m.len(),
{
    if m.len() == 0 {
        assert(spec_parse_string_string_map(spec_encode_string_string_map(m)) == Some(
            Seq::<(Seq<u8>, Seq<u8>)>::empty(),
        ));
        assert(Seq::<(Seq<u8>, Seq<u8>)>::empty() =~= m);
    } else {
        let key = m[0].0;
        let val = m[0].1;
        let rest = m.skip(1);
        assert(forall|i: int|
            0 <= i < rest.len() ==> (#[trigger] rest[i]).0.len() <= u32::MAX && rest[i].1.len()
                <= u32::MAX);
        lemma_string_string_map_round_trip(rest);
        let enc_rest = spec_encode_string_string_map(rest);
        let enc = spec_encode_string_string_map(m);
        let k = key.len() as int;
        let v = val.len() as int;
        lemma_string_string_entry_layout(key, val, enc_rest);
        assert(le32_value(enc.subrange(0, 4)) as int == k);
        assert(enc.subrange(4, 4 + k) == key);
        assert(le32_value(enc.subrange(4 + k, 4 + k + 4)) as int == v);
        assert(enc.subrange(4 + k + 4, 4 + k + 4 + v) == val);
        assert(enc.skip(4 + k + 4 + v) == enc_rest);
        assert(seq![(key, val)] + rest =~= m);
    }
}

/// Parsing an encoded string-to-integer map gives the entries back.
#[verifier::rlimit(100)]
#[verifier::spinoff_prover]
pub proof fn lemma_string_int_map_round_trip(m: Seq<(Seq<u8>, i64)>)
    requires
        forall|i: int| 0 <= i < m.len() ==> (#[trigger] m[i]).0.len() <= u32::MAX,
    ensures
        spec_parse_string_int_map(spec_encode_string_int_map(m)) == Some(m),
    decreases m.len(),
{
    if m.len() == 0 {
        assert(spec_parse_string_int_map(spec_encode_string_int_map(m)) == Some(
            Seq::<(Seq<u8>, i64)>::empty(),
        ));
        assert(Seq::<(Seq<u8>, i64)>::empty() =~= m);
    } else {
        let key = m[0].0;
        let val = m[0].1;
        let rest = m.skip(1);
        assert(forall|i: int| 0 <= i < rest.len() ==> (#[trigger] rest[i]).0.len() <= u32::MAX);
        lemma_string_int_map_round_trip(rest);
        let lk = le32_bytes(key.len() as u32);
        let w = le64_bytes(val as u64);
        let ik = spec_encode_string_item(key);
        let head = ik + w;
        let enc_rest = spec_encode_string_int_map(rest);
        let enc = spec_encode_string_int_map(m);
        let k = key.len() as int;
        assert(lk.len() == 4 && w.len() == 8);
        assert(enc == head + enc_rest);
        lemma_concat_split(head, enc_rest);
        lemma_concat_split(ik, w);
        lemma_concat_split(lk, key);
        // the key length prefix
        lemma_concat_subrange_left(head, enc_rest, 0, 4);
        lemma_concat_subrange_left(ik, w, 0, 4);
        lemma_concat_subrange_left(lk, key, 0, 4);
        lemma_subrange_full(lk);
        lemma_le32_round(key.len() as u32);
        assert(le32_value(enc.subrange(0, 4)) as int == k);
        // the key bytes
        lemma_concat_subrange_left(head, enc_rest, 4, 4 + k);
        lemma_concat_subrange_left(ik, w, 4, 4 + k);
        lemma_concat_subrange_right(lk, key, 4, 4 + k);
        lemma_subrange_full(key);
        assert(enc.subrange(4, 4 + k) == key);
        // the value word
        lemma_concat_subrange_left(head, enc_rest, 4 + k, 4 + k + 8);
        lemma_concat_subrange_right(ik, w, 4 + k, 4 + k + 8);
        lemma_subrange_full(w);
        lemma_le64_round(val as u64);
        lemma_i64_bits_round(val);
        assert(le64_value(enc.subrange(4 + k, 4 + k + 8)) as i64 == val);
        // the remaining entries
        assert(enc.skip(4 + k + 8) == enc_rest);
        assert(seq![(key, val)] + rest =~= m);
    }
}

/// Parsing an encoded integer-to-string map gives the entries back.
#[verifier::rlimit(100)]
#[verifier::spinoff_prover]
pub proof fn lemma_int_string_map_round_trip(m: Seq<(i64, Seq<u8>)>)
    requires
        forall|i: int| 0 <= i < m.len() ==> (#[trigger] m[i]).1.len() <= u32::MAX,
    ensures
        spec_parse_int_string_map(spec_encode_int_string_map(m)) == Some(m),
    decreases m.len(),
{
    if m.len() == 0 {
        assert(spec_parse_int_string_map(spec_encode_int_string_map(m)) == Some(
            Seq::<(i64, Seq<u8>)>::empty(),
        ));
        assert(Seq::<(i64, Seq<u8>)>::empty() =~= m);
    } else {
        let key = m[0].0;
        let val = m[0].1;
        let rest = m.skip(1);
        assert(forall|i: int| 0 <= i < rest.len() ==> (#[trigger] rest[i]).1.len() <= u32::MAX);
        lemma_int_string_map_round_trip(rest);
        let w = le64_bytes(key as u64);
        let lv = le32_bytes(val.len() as u32);
        let iv = spec_encode_string_item(val);
        let head = w + iv;
        let enc_rest = spec_encode_int_string_map(rest);
        let enc = spec_encode_int_string_map(m);
        let v = val.len() as int;
        assert(w.len() == 8 && lv.len() == 4);
        assert(enc == head + enc_rest);
        lemma_concat_split(head, enc_rest);
        lemma_concat_split(w, iv);
        lemma_concat_split(lv, val);
        // the key word
        lemma_concat_subrange_left(head, enc_rest, 0, 8);
        lemma_concat_subrange_left(w, iv, 0, 8);
        lemma_subrange_full(w);
        lemma_le64_round(key as u64);
        lemma_i64_bits_round(key);
        assert(le64_value(enc.subrange(0, 8)) as i64 == key);
        // the value length prefix
        lemma_concat_subrange_left(head, enc_rest, 8, 12);
        lemma_concat_subrange_right(w, iv, 8, 12);
        lemma_concat_subrange_left(lv, val, 0, 4);
        lemma_subrange_full(lv);
        lemma_le32_round(val.len() as u32);
        assert(le32_value(enc.subrange(8, 12)) as int == v);
        // the value bytes
        lemma_concat_subrange_left(head, enc_rest, 12, 12 + v);
        lemma_concat_subrange_right(w, iv, 12, 12 + v);
        lemma_concat_subrange_right(lv, val, 4, 4 + v);
        lemma_subrange_full(val);
        assert(enc.subrange(12, 12 + v) == val);
        // the remaining entries
        assert(enc.skip(12 + v) == enc_rest);
        assert(seq![(key, val)] + rest =~= m);
    }
}

/// Parsing an encoded integer-to-integer map gives the entries back.
#[verifier::rlimit(100)]
#[verifier::spinoff_prover]
pub proof fn lemma_int_int_map_round_trip(m: Seq<(i64, i64)>)
    ensures
        spec_parse_int_int_map(spec_encode_int_int_map(m)) == Some(m),
    decreases m.len(),
{
    if m.len() == 0 {
        assert(spec_parse_int_int_map(spec_encode_int_int_map(m)) == Some(
            Seq::<(i64, i64)>::empty(),
        ));
        assert(Seq::<(i64, i64)>::empty() =~= m);
    } else {
        let rest = m.skip(1);
        lemma_int_int_map_round_trip(rest);
        let wk = le64_bytes(m[0].0 as u64);
        let wv = le64_bytes(m[0].1 as u64);
        let head = wk + wv;
        let enc_rest = spec_encode_int_int_map(rest);
        let enc = spec_encode_int_int_map(m);
        assert(wk.len() == 8 && wv.len() == 8);
        assert(enc == head + enc_rest);
        lemma_concat_split(head, enc_rest);
        lemma_concat_split(wk, wv);
        lemma_concat_subrange_left(head, enc_rest, 0, 8);
        lemma_concat_subrange_left(wk, wv, 0, 8);
        lemma_subrange_full(wk);
        lemma_concat_subrange_left(head, enc_rest, 8, 16);
        lemma_concat_subrange_right(wk, wv, 8, 16);
        lemma_subrange_full(wv);
        lemma_le64_round(m[0].0 as u64);
        lemma_i64_bits_round(m[0].0);
        lemma_le64_round(m[0].1 as u64);
        lemma_i64_bits_round(m[0].1);
        assert(le64_value(enc.subrange(0, 8)) as i64 == m[0].0);
        assert(le64_value(enc.subrange(8, 16)) as i64 == m[0].1);
        assert(enc.skip(16) == enc_rest);
        assert(seq![(m[0].0, m[0].1)] + rest =~= m);
        assert((m[0].0, m[0].1) == m[0]);
    }
}

/// Decoding an encoded value under its own datatype gives the value
/// back: the attribute codec loses nothing.
pub proof fn lemma_value_round_trip(m: ValueModel)
    requires
        value_valid(m),
        value_sizes_fit(m),
    ensures
        spec_decode_value(spec_value_datatype(m), spec_encode_value(m)) == Ok::<
            ValueModel,
            Seq<char>,
        >(m),
{
    match m {
        ValueModel::VString(_) => {},
        ValueModel::VInt(i) => {
            lemma_le64_round(i as u64);
            lemma_i64_bits_round(i);
        },
        ValueModel::VListString(l) => {
            lemma_string_list_round_trip(l);
        },
        ValueModel::VListInt(l) => {
            lemma_int_list_round_trip(l);
        },
        ValueModel::VSetString(l) => {
            lemma_string_list_round_trip(l);
        },
        ValueModel::VSetInt(l) => {
            lemma_int_list_round_trip(l);
        },
        ValueModel::VMapStringString(m) => {
            lemma_string_string_map_round_trip(m);
        },
        ValueModel::VMapStringInt(m) => {
            lemma_string_int_map_round_trip(m);
        },
        ValueModel::VMapIntString(m) => {
            lemma_int_string_map_round_trip(m);
        },
        ValueModel::VMapIntInt(m) => {
            lemma_int_int_map_round_trip(m);
        },
        ValueModel::VDocument(_) => {},
    }
}

/// One attribute as the engine reports it: a name, a datatype code and
/// the value bytes.
#[derive(Debug, Clone, PartialEq)]
pub struct RawAttribute {
    pub name: String,
    pub datatype: u32,
    pub value: Vec<u8>,
}

/// The mathematical shape of a [`RawAttribute`].
pub struct AttrModel {
    pub name: Seq<char>,
    pub datatype: u32,
    pub value: Seq<u8>,
}

impl DeepView for RawAttribute {
    type V = AttrModel;

    open spec fn deep_view(&self) -> AttrModel {
        AttrModel { name: self.name@, datatype: self.datatype, value: self.value@ }
    }
}

/// The object a run of attributes denotes, decoded front to back: the
/// first complaint wins, and a later entry for a name replaces an
/// earlier one.
pub open spec fn spec_decode_attributes(s: Seq<AttrModel>) -> Result<
    Map<Seq<char>, ValueModel>,
    Seq<char>,
>
    decreases s.len(),
{
    if s.len() == 0 {
        Ok(Map::empty())
    } else {
        match spec_decode_value(s[0].datatype, s[0].value) {
            Err(e) => Err(e),
            Ok(v) => match spec_decode_attributes(s.skip(1)) {
                Err(e) => Err(e),
                Ok(m) => if m.contains_key(s[0].name) {
                    Ok(m)
                } else {
                    Ok(m.insert(s[0].name, v))
                },
            },
        }
    }
}

/// Builds an object from the attributes the engine reported for a
/// completion, or the complaint about the first attribute that does not
/// decode.
pub fn decode_attributes(attrs: &Vec<RawAttribute>) -> (r: Result<HyperObject, String>)
    ensures
        match r {
            Ok(obj) => obj.wf() && spec_decode_attributes(attrs.deep_view()) == Ok::<
                Map<Seq<char>, ValueModel>,
                Seq<char>,
            >(obj.as_map()),
            Err(e) => spec_decode_attributes(attrs.deep_view()) == Err::<
                Map<Seq<char>, ValueModel>,
                Seq<char>,
            >(e@),
        },
{
    let ghost full = attrs.deep_view();
    let mut obj = HyperObject::new();
    let mut i: usize = 0;
    proof {
        assert(full.skip(0) =~= full);
        match spec_decode_attributes(full) {
            Err(_) => {},
            Ok(m) => {
                assert(obj.as_map().union_prefer_right(m) =~= m);
            },
        }
    }
    while i < attrs.len()
        invariant
            i <= attrs@.len(),
            full == attrs.deep_view(),
            obj.wf(),
            spec_decode_attributes(full) == (match spec_decode_attributes(full.skip(i as int)) {
                Err(e) => Err::<Map<Seq<char>, ValueModel>, Seq<char>>(e),
                Ok(m) => Ok(obj.as_map().union_prefer_right(m)),
            }),
        decreases attrs@.len() - i,
    {
        let ghost tail = full.skip(i as int);
        proof {
            assert(tail[0] == attrs@[i as int].deep_view());
            assert(tail.skip(1) =~= full.skip(i + 1));
        }
        let decoded = match decode_value(attrs[i].datatype, &attrs[i].value) {
            Ok(v) => v,
            Err(e) => {
                return Err(e);
            },
        };
        let name = attrs[i].name.clone();
        let ghost pre_map = obj.as_map();
        obj.insert_value(name, decoded);
        proof {
            let k = tail[0].name;
            let v = decoded.deep_view();
            match spec_decode_attributes(full.skip(i + 1)) {
                Err(_) => {},
                Ok(m) => {
                    if m.contains_key(k) {
                        assert(pre_map.insert(k, v).union_prefer_right(m)
                            =~= pre_map.union_prefer_right(m));
                    } else {
                        assert(pre_map.insert(k, v).union_prefer_right(m)
                            =~= pre_map.union_prefer_right(m.insert(k, v)));
                    }
                },
            }
        }
        i = i + 1;
    }
    proof {
        assert(full.skip(full.len() as int) =~= Seq::<AttrModel>::empty());
        match spec_decode_attributes(Seq::<AttrModel>::empty()) {
            Err(_) => {},
            Ok(m) => {
                assert(obj.as_map().union_prefer_right(m) =~= obj.as_map());
            },
        }
    }
    Ok(obj)
}

/// Encodes every attribute of an object, in entry order.
pub fn encode_object(obj: &HyperObject) -> (r: Vec<RawAttribute>)
    ensures
        r.deep_view().len() == obj.deep_view().len(),
        forall|i: int|
            0 <= i < obj.deep_view().len() ==> {
                &&& (#[trigger] r.deep_view()[i]).name == obj.deep_view()[i].0
                &&& r.deep_view()[i].datatype == spec_value_datatype(obj.deep_view()[i].1)
                &&& r.deep_view()[i].value == spec_encode_value(obj.deep_view()[i].1)
            },
{
    let mut r: Vec<RawAttribute> = Vec::new();
    let mut i: usize = 0;
    proof {
        crate::client_types::lemma_object_deep_view(obj);
    }
    while i < obj.entries.len()
        invariant
            i <= obj.entries@.len(),
            obj.deep_view() == obj.entries.deep_view(),
            r.deep_view().len() == i as int,
            forall|j: int|
                0 <= j < i ==> {
                    &&& (#[trigger] r.deep_view()[j]).name == obj.deep_view()[j].0
                    &&& r.deep_view()[j].datatype == spec_value_datatype(obj.deep_view()[j].1)
                    &&& r.deep_view()[j].value == spec_encode_value(obj.deep_view()[j].1)
                },
        decreases obj.entries@.len() - i,
    {
        let name = obj.entries[i].name.clone();
        let (value, datatype) = encode_value(&obj.entries[i].value);
        let ghost pre = r.deep_view();
        r.push(RawAttribute { name, datatype, value });
        proof {
            crate::client_types::lemma_object_deep_view(obj);
            assert forall|j: int| 0 <= j < pre.len() implies #[trigger] r.deep_view()[j]
                == pre[j] by {}
            assert(obj.deep_view()[i as int] == obj.entries@[i as int].deep_view());
        }
        i = i + 1;
    }
    r
}

/// One search predicate as the engine consumes it.
#[derive(Debug, Clone, PartialEq)]
pub struct RawCheck {
    pub attr: String,
    pub value: Vec<u8>,
    pub datatype: u32,
    pub predicate: u32,
}

/// The mathematical shape of a [`RawCheck`].
pub struct CheckModel {
    pub attr: Seq<char>,
    pub value: Seq<u8>,
    pub datatype: u32,
    pub predicate: u32,
}

impl DeepView for RawCheck {
    type V = CheckModel;

    open spec fn deep_view(&self) -> CheckModel {
        CheckModel {
            attr: self.attr@,
            value: self.value@,
            datatype: self.datatype,
            predicate: self.predicate,
        }
    }
}

/// Encodes the predicates of a search, in order.
pub fn encode_predicates(checks: &Vec<HyperPredicate>) -> (r: Vec<RawCheck>)
    ensures
        r.deep_view().len() == checks@.len(),
        forall|i: int|
            0 <= i < checks@.len() ==> {
                &&& (#[trigger] r.deep_view()[i]).attr == checks@[i].attr@
                &&& r.deep_view()[i].value == spec_encode_value(checks@[i].value.deep_view())
                &&& r.deep_view()[i].datatype == spec_value_datatype(checks@[i].value.deep_view())
                &&& r.deep_view()[i].predicate == checks@[i].predicate.spec_code()
            },
{
    let mut r: Vec<RawCheck> = Vec::new();
    let mut i: usize = 0;
    while i < checks.len()
        invariant
            i <= checks@.len(),
            r.deep_view().len() == i as int,
            forall|j: int|
                0 <= j < i ==> {
                    &&& (#[trigger] r.deep_view()[j]).attr == checks@[j].attr@
                    &&& r.deep_view()[j].value == spec_encode_value(checks@[j].value.deep_view())
                    &&& r.deep_view()[j].datatype == spec_value_datatype(
                        checks@[j].value.deep_view(),
                    )
                    &&& r.deep_view()[j].predicate == checks@[j].predicate.spec_code()
                },
        decreases checks@.len() - i,
    {
        let attr = checks[i].attr.clone();
        let (value, datatype) = encode_value(&checks[i].value);
        let predicate = checks[i].predicate.code();
        let ghost pre = r.deep_view();
        r.push(RawCheck { attr, value, datatype, predicate });
        proof {
            assert forall|j: int| 0 <= j < pre.len() implies #[trigger] r.deep_view()[j]
                == pre[j] by {}
        }
        i = i + 1;
    }
    r
}

/// One map-attribute update as the engine consumes it.
#[derive(Debug, Clone, PartialEq)]
pub struct RawMapAttribute {
    pub attr: String,
    pub key: Vec<u8>,
    pub key_datatype: u32,
    pub value: Vec<u8>,
    pub value_datatype: u32,
}

/// The mathematical shape of a [`RawMapAttribute`].
pub struct MapAttrModel {
    pub attr: Seq<char>,
    pub key: Seq<u8>,
    pub key_datatype: u32,
    pub value: Seq<u8>,
    pub value_datatype: u32,
}

impl DeepView for RawMapAttribute {
    type V = MapAttrModel;

    open spec fn deep_view(&self) -> MapAttrModel {
        MapAttrModel {
            attr: self.attr@,
            key: self.key@,
            key_datatype: self.key_datatype,
            value: self.value@,
            value_datatype: self.value_datatype,
        }
    }
}

/// Encodes the key and value of each map-attribute update, in order.
pub fn encode_map_attributes(mapattrs: &Vec<HyperMapAttribute>) -> (r: Vec<RawMapAttribute>)
    ensures
        r.deep_view().len() == mapattrs@.len(),
        forall|i: int|
            0 <= i < mapattrs@.len() ==> {
                &&& (#[trigger] r.deep_view()[i]).attr == mapattrs@[i].attr@
                &&& r.deep_view()[i].key == spec_encode_value(mapattrs@[i].key.deep_view())
                &&& r.deep_view()[i].key_datatype == spec_value_datatype(
                    mapattrs@[i].key.deep_view(),
                )
                &&& r.deep_view()[i].value == spec_encode_value(mapattrs@[i].value.deep_view())
                &&& r.deep_view()[i].value_datatype == spec_value_datatype(
                    mapattrs@[i].value.deep_view(),
                )
            },
{
    let mut r: Vec<RawMapAttribute> = Vec::new();
    let mut i: usize = 0;
    while i < mapattrs.len()
        invariant
            i <= mapattrs@.len(),
            r.deep_view().len() == i as int,
            forall|j: int|
                0 <= j < i ==> {
                    &&& (#[trigger] r.deep_view()[j]).attr == mapattrs@[j].attr@
                    &&& r.deep_view()[j].key == spec_encode_value(mapattrs@[j].key.deep_view())
                    &&& r.deep_view()[j].key_datatype == spec_value_datatype(
                        mapattrs@[j].key.deep_view(),
                    )
                    &&& r.deep_view()[j].value == spec_encode_value(mapattrs@[j].value.deep_view())
                    &&& r.deep_view()[j].value_datatype == spec_value_datatype(
                        mapattrs@[j].value.deep_view(),
                    )
                },
        decreases mapattrs@.len() - i,
    {
        let attr = mapattrs[i].attr.clone();
        let (key, key_datatype) = encode_value(&mapattrs[i].key);
        let (value, value_datatype) = encode_value(&mapattrs[i].value);
        let ghost pre = r.deep_view();
        r.push(RawMapAttribute { attr, key, key_datatype, value, value_datatype });
        proof {
            assert forall|j: int| 0 <= j < pre.len() implies #[trigger] r.deep_view()[j]
                == pre[j] by {}
        }
        i = i + 1;
    }
    r
}

} // verus!
