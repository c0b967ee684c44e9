//! A value model shaped like Soroban's `Val` space (void, bool, the integer
//! widths, symbols, bytes, strings, addresses, vectors and maps), and typed
//! random generation of such values, biased toward numeric edge cases.
//!
//! Generation is driven by a `ValueKind`: the value that comes back always
//! has the shape the kind describes (`conforms`), and nesting stops at the
//! given depth (`nested_within`).
use vstd::prelude::*;
use vstd::string::*;
use rand_chacha::ChaCha8Rng;
use crate::rng::{draw_bool, draw_i32, draw_i64, draw_u32, draw_u64, draw_u8};
use crate::draws::{added, draw_coin, draw_i32_range, draw_index, draw_u32_range, draw_u8_range, drew, extends, Draw, DrawLog};

verus! {

/// The kind of value an entry-point argument expects.
#[derive(Debug, PartialEq, Eq)]
pub enum ValueKind {
    Bool,
    U32,
    I32,
    U64,
    I64,
    U128,
    I128,
    /// Soroban symbols: 1 to 32 characters from `[A-Za-z0-9_]`.
    Symbol,
    Bytes { max_len: usize },
    StringVal { max_len: usize },
    Address,
    /// Element kind and maximum length.
    Vec(Box<ValueKind>, usize),
    /// Key kind, value kind and maximum number of entries.
    MapVal(Box<ValueKind>, Box<ValueKind>, usize),
    /// One of a fixed set of kinds, chosen uniformly each time.
    OneOf(Vec<ValueKind>),
}

/// A value in the Soroban `Val` shape.
#[derive(Debug, PartialEq)]
pub enum SorobanValue {
    Void,
    Bool(bool),
    U32(u32),
    I32(i32),
    U64(u64),
    I64(i64),
    U128(u128),
    I128(i128),
    Symbol(String),
    Bytes(Vec<u8>),
    StringVal(String),
    Address(String),
    Vec(Vec<SorobanValue>),
    MapVal(Vec<(SorobanValue, SorobanValue)>),
}

/// `a` and `b` are the same kind, compared structurally.
pub open spec fn same_kind(a: ValueKind, b: ValueKind) -> bool
    decreases a,
{
    match a {
        ValueKind::Vec(ea, na) => b matches ValueKind::Vec(eb, nb) && na == nb && same_kind(*ea, *eb),
        ValueKind::MapVal(ka, va, na) => b matches ValueKind::MapVal(kb, vb, nb) && na == nb && same_kind(
            *ka,
            *kb,
        ) && same_kind(*va, *vb),
        ValueKind::OneOf(ka) => b matches ValueKind::OneOf(kb) && ka@.len() == kb@.len() && forall|i: int|
            0 <= i < ka@.len() ==> same_kind(#[trigger] ka@[i], kb@[i]),
        _ => a == b,
    }
}

/// `a` and `b` are the same value, compared structurally (strings and bytes
/// by their contents).
pub open spec fn same_value(a: SorobanValue, b: SorobanValue) -> bool
    decreases a,
{
    match a {
        SorobanValue::Symbol(s) => b matches SorobanValue::Symbol(t) && s@ == t@,
        SorobanValue::Bytes(x) => b matches SorobanValue::Bytes(y) && x@ == y@,
        SorobanValue::StringVal(s) => b matches SorobanValue::StringVal(t) && s@ == t@,
        SorobanValue::Address(s) => b matches SorobanValue::Address(t) && s@ == t@,
        SorobanValue::Vec(xs) => b matches SorobanValue::Vec(ys) && xs@.len() == ys@.len() && forall|i: int|
            0 <= i < xs@.len() ==> same_value(#[trigger] xs@[i], ys@[i]),
        SorobanValue::MapVal(xs) => b matches SorobanValue::MapVal(ys) && xs@.len() == ys@.len() && forall|
            i: int,
        |
            0 <= i < xs@.len() ==> same_value(#[trigger] xs@[i].0, ys@[i].0) && same_value(xs@[i].1, ys@[i].1),
        _ => a == b,
    }
}

impl Clone for ValueKind {
    fn clone(&self) -> (r: Self)
        ensures
            same_kind(*self, r),
    {
        clone_kind(self)
    }
}

fn clone_kind(kind: &ValueKind) -> (r: ValueKind)
    ensures
        same_kind(*kind, r),
    decreases kind, 0int,
{
    match kind {
        ValueKind::Bool => ValueKind::Bool,
        ValueKind::U32 => ValueKind::U32,
        ValueKind::I32 => ValueKind::I32,
        ValueKind::U64 => ValueKind::U64,
        ValueKind::I64 => ValueKind::I64,
        ValueKind::U128 => ValueKind::U128,
        ValueKind::I128 => ValueKind::I128,
        ValueKind::Symbol => ValueKind::Symbol,
        ValueKind::Bytes { max_len } => ValueKind::Bytes { max_len: *max_len },
        ValueKind::StringVal { max_len } => ValueKind::StringVal { max_len: *max_len },
        ValueKind::Address => ValueKind::Address,
        ValueKind::Vec(elem, max_len) => ValueKind::Vec(Box::new(clone_kind(elem)), *max_len),
        ValueKind::MapVal(key, val, max_entries) => ValueKind::MapVal(
            Box::new(clone_kind(key)),
            Box::new(clone_kind(val)),
            *max_entries,
        ),
        ValueKind::OneOf(kinds) => ValueKind::OneOf(clone_kinds(kinds)),
    }
}

fn clone_kinds(kinds: &Vec<ValueKind>) -> (r: Vec<ValueKind>)
    ensures
        r@.len() == kinds@.len(),
        forall|i: int| 0 <= i < kinds@.len() ==> same_kind(#[trigger] kinds@[i], r@[i]),
    decreases kinds, 1int,
{
    let mut out: Vec<ValueKind> = Vec::new();
    let mut i: usize = 0;
    while i < kinds.len()
        invariant
            i <= kinds.len(),
            out@.len() == i,
            forall|j: int| 0 <= j < i ==> same_kind(#[trigger] kinds@[j], out@[j]),
        decreases kinds.len() - i,
    {
        proof {
            assert(decreases_to!(*kinds => kinds[i as int]));
        }
        out.push(clone_kind(&kinds[i]));
        i = i + 1;
    }
    out
}

impl Clone for SorobanValue {
    fn clone(&self) -> (r: Self)
        ensures
            same_value(*self, r),
    {
        clone_value(self)
    }
}

fn clone_value(value: &SorobanValue) -> (r: SorobanValue)
    ensures
        same_value(*value, r),
    decreases value, 0int,
{
    match value {
        SorobanValue::Void => SorobanValue::Void,
        SorobanValue::Bool(b) => SorobanValue::Bool(*b),
        SorobanValue::U32(n) => SorobanValue::U32(*n),
        SorobanValue::I32(n) => SorobanValue::I32(*n),
        SorobanValue::U64(n) => SorobanValue::U64(*n),
        SorobanValue::I64(n) => SorobanValue::I64(*n),
        SorobanValue::U128(n) => SorobanValue::U128(*n),
        SorobanValue::I128(n) => SorobanValue::I128(*n),
        SorobanValue::Symbol(s) => SorobanValue::Symbol(s.clone()),
        SorobanValue::Bytes(b) => SorobanValue::Bytes(clone_bytes(b)),
        SorobanValue::StringVal(s) => SorobanValue::StringVal(s.clone()),
        SorobanValue::Address(s) => SorobanValue::Address(s.clone()),
        SorobanValue::Vec(items) => SorobanValue::Vec(clone_values(items)),
        SorobanValue::MapVal(entries) => SorobanValue::MapVal(clone_entries(entries)),
    }
}

fn clone_bytes(bytes: &Vec<u8>) -> (r: Vec<u8>)
    ensures
        r@ == bytes@,
{
    let mut out: Vec<u8> = Vec::new();
    let mut i: usize = 0;
    while i < bytes.len()
        invariant
            i <= bytes.len(),
            out@ == bytes@.take(i as int),
        decreases bytes.len() - i,
    {
        out.push(bytes[i]);
        i = i + 1;
        assert(out@ == bytes@.take(i as int));
    }
    assert(bytes@.take(bytes@.len() as int) == bytes@);
    out
}

fn clone_values(items: &Vec<SorobanValue>) -> (r: Vec<SorobanValue>)
    ensures
        r@.len() == items@.len(),
        forall|i: int| 0 <= i < items@.len() ==> same_value(#[trigger] items@[i], r@[i]),
    decreases items, 1int,
{
    let mut out: Vec<SorobanValue> = Vec::new();
    let mut i: usize = 0;
    while i < items.len()
        invariant
            i <= items.len(),
            out@.len() == i,
            forall|j: int| 0 <= j < i ==> same_value(#[trigger] items@[j], out@[j]),
        decreases items.len() - i,
    {
        proof {
            assert(decreases_to!(*items => items[i as int]));
        }
        out.push(clone_value(&items[i]));
        i = i + 1;
    }
    out
}

fn clone_entries(entries: &Vec<(SorobanValue, SorobanValue)>) -> (r: Vec<(SorobanValue, SorobanValue)>)
    ensures
        r@.len() == entries@.len(),
        forall|i: int|
            0 <= i < entries@.len() ==> same_value(#[trigger] entries@[i].0, r@[i].0) && same_value(
                entries@[i].1,
                r@[i].1,
            ),
    decreases entries, 1int,
{
    let mut out: Vec<(SorobanValue, SorobanValue)> = Vec::new();
    let mut i: usize = 0;
    while i < entries.len()
        invariant
            i <= entries.len(),
            out@.len() == i,
            forall|j: int|
                0 <= j < i ==> same_value(#[trigger] entries@[j].0, out@[j].0) && same_value(
                    entries@[j].1,
                    out@[j].1,
                ),
        decreases entries.len() - i,
    {
        proof {
            assert(decreases_to!(*entries => entries[i as int]));
            assert(decreases_to!(entries[i as int] => entries[i as int].0));
            assert(decreases_to!(entries[i as int] => entries[i as int].1));
        }
        let key = clone_value(&entries[i].0);
        let val = clone_value(&entries[i].1);
        out.push((key, val));
        i = i + 1;
    }
    out
}

/// Number of distinct actor addresses that generation draws from.
pub const ADDRESS_POOL_SIZE: u32 = 4;

/// Number of characters in the symbol alphabet `[A-Za-z0-9_]`.
pub const SYMBOL_ALPHABET_LEN: usize = 63;

/// The byte at position `i` of the symbol alphabet
/// `ABCDEFGHIJKLMNOPQRSTUVWXYZabcdefghijklmnopqrstuvwxyz0123456789_`.
pub open spec fn symbol_byte(i: int) -> u8 {
    if i < 26 {
        (65 + i) as u8
    } else if i < 52 {
        (97 + (i - 26)) as u8
    } else if i < 62 {
        (48 + (i - 52)) as u8
    } else {
        95u8
    }
}

/// A character that may appear in a Soroban symbol: `[A-Za-z0-9_]`.
pub open spec fn is_symbol_char(c: char) -> bool {
    let n = c as u32;
    (65 <= n <= 90) || (97 <= n <= 122) || (48 <= n <= 57) || n == 95
}

/// A printable ASCII character in the range generated for strings: 0x20 up to,
/// but not including, 0x7e.
pub open spec fn is_generated_printable(c: char) -> bool {
    0x20 <= (c as u32) < 0x7e
}

/// The address label of actor `k`: `ADDR_` followed by the decimal digit `k`.
pub open spec fn address_label(k: u32) -> Seq<char> {
    "ADDR_"@.push(((48 + k) as u8) as char)
}

/// The length bound used for bytes and strings: `max_len`, but at least 1.
pub open spec fn length_cap(max_len: usize) -> nat {
    if max_len < 1 { 1 } else { max_len as nat }
}

/// Generation of `kind` at `depth` cannot hit an empty choice: every `OneOf`
/// that generation may reach lists at least one kind. A `Vec` or `Map` is
/// only entered when `depth > 0` and its maximum size is positive.
pub open spec fn generable(kind: ValueKind, depth: nat) -> bool
    decreases kind,
{
    match kind {
        ValueKind::Vec(elem, max_len) => depth == 0 || max_len == 0 || generable(*elem, (depth - 1) as nat),
        ValueKind::MapVal(key, val, max_entries) => depth == 0 || max_entries == 0 || (generable(
            *key,
            (depth - 1) as nat,
        ) && generable(*val, (depth - 1) as nat)),
        ValueKind::OneOf(kinds) => kinds@.len() > 0 && forall|i: int|
            0 <= i < kinds@.len() ==> generable(#[trigger] kinds@[i], depth),
        _ => true,
    }
}

/// `value` has the shape that `kind` describes when generated with nesting
/// budget `depth`.
pub open spec fn conforms(value: SorobanValue, kind: ValueKind, depth: nat) -> bool
    decreases kind,
{
    match kind {
        ValueKind::Bool => value is Bool,
        ValueKind::U32 => value is U32,
        ValueKind::I32 => value is I32,
        ValueKind::U64 => value is U64,
        ValueKind::I64 => value is I64,
        ValueKind::U128 => value is U128,
        ValueKind::I128 => value is I128,
        ValueKind::Symbol => value matches SorobanValue::Symbol(s) && 1 <= s@.len() <= 32 && forall|i: int|
            0 <= i < s@.len() ==> is_symbol_char(#[trigger] s@[i]),
        ValueKind::Bytes { max_len } => value matches SorobanValue::Bytes(b) && b@.len() <= length_cap(
            max_len,
        ),
        ValueKind::StringVal { max_len } => value matches SorobanValue::StringVal(s) && s@.len()
            <= length_cap(max_len) && forall|i: int|
            0 <= i < s@.len() ==> is_generated_printable(#[trigger] s@[i]),
        ValueKind::Address => value matches SorobanValue::Address(s) && exists|k: u32|
            k < ADDRESS_POOL_SIZE && s@ == #[trigger] address_label(k),
        ValueKind::Vec(elem, max_len) => value matches SorobanValue::Vec(items) && if depth == 0 {
            items@.len() == 0
        } else {
            items@.len() <= max_len && forall|i: int|
                0 <= i < items@.len() ==> conforms(#[trigger] items@[i], *elem, (depth - 1) as nat)
        },
        ValueKind::MapVal(key, val, max_entries) => value matches SorobanValue::MapVal(entries) && if depth
            == 0 {
            entries@.len() == 0
        } else {
            entries@.len() <= max_entries && forall|i: int|
                0 <= i < entries@.len() ==> conforms(#[trigger] entries@[i].0, *key, (depth - 1) as nat)
                    && conforms(entries@[i].1, *val, (depth - 1) as nat)
        },
        ValueKind::OneOf(kinds) => exists|i: int|
            0 <= i < kinds@.len() && conforms(value, #[trigger] kinds@[i], depth),
    }
}

/// Containers in `value` hold elements only while the nesting budget `depth`
/// is positive: no element sits deeper than `depth` levels.
pub open spec fn nested_within(value: SorobanValue, depth: nat) -> bool
    decreases value,
{
    match value {
        SorobanValue::Vec(items) => items@.len() == 0 || (depth > 0 && forall|i: int|
            0 <= i < items@.len() ==> nested_within(#[trigger] items@[i], (depth - 1) as nat)),
        SorobanValue::MapVal(entries) => entries@.len() == 0 || (depth > 0 && forall|i: int|
            0 <= i < entries@.len() ==> nested_within(#[trigger] entries@[i].0, (depth - 1) as nat)
                && nested_within(entries@[i].1, (depth - 1) as nat)),
        _ => true,
    }
}

/// A generated value never nests deeper than the depth it was generated with:
/// every value that conforms to a kind at `depth` is nested within `depth`.
pub proof fn lemma_conforming_value_is_depth_bounded(value: SorobanValue, kind: ValueKind, depth: nat)
    requires
        conforms(value, kind, depth),
    ensures
        nested_within(value, depth),
    decreases kind,
{
    match kind {
        ValueKind::Vec(elem, max_len) => {
            if let SorobanValue::Vec(items) = value {
                if depth > 0 {
                    assert forall|i: int| 0 <= i < items@.len() implies nested_within(
                        #[trigger] items@[i],
                        (depth - 1) as nat,
                    ) by {
                        lemma_conforming_value_is_depth_bounded(items@[i], *elem, (depth - 1) as nat);
                    }
                }
            }
        },
        ValueKind::MapVal(key, val, max_entries) => {
            if let SorobanValue::MapVal(entries) = value {
                if depth > 0 {
                    assert forall|i: int| 0 <= i < entries@.len() implies nested_within(
                        #[trigger] entries@[i].0,
                        (depth - 1) as nat,
                    ) && nested_within(entries@[i].1, (depth - 1) as nat) by {
                        lemma_conforming_value_is_depth_bounded(entries@[i].0, *key, (depth - 1) as nat);
                        lemma_conforming_value_is_depth_bounded(entries@[i].1, *val, (depth - 1) as nat);
                    }
                }
            }
        },
        ValueKind::OneOf(kinds) => {
            let i = choose|i: int| 0 <= i < kinds@.len() && conforms(value, #[trigger] kinds@[i], depth);
            lemma_conforming_value_is_depth_bounded(value, kinds@[i], depth);
        },
        _ => {},
    }
}

/// `String::push`: appends one character.
#[verifier::external_body]
fn push_char(s: &mut String, c: char)
    ensures
        final(s)@ == old(s)@.push(c),
{
    s.push(c);
}

/// The address of actor `actor` of the pool: `ADDR_` and the actor's digit.
pub fn actor_address(actor: u32) -> (address: String)
    requires
        actor < ADDRESS_POOL_SIZE,
    ensures
        address@ == address_label(actor),
{
    let mut address = String::from_str("ADDR_");
    let digit = (48 + actor) as u8;
    push_char(&mut address, digit as char);
    address
}

/// The `i`-th byte of the symbol alphabet.
fn symbol_alphabet_byte(i: usize) -> (b: u8)
    requires
        i < SYMBOL_ALPHABET_LEN,
    ensures
        b == symbol_byte(i as int),
{
    if i < 26 {
        65 + i as u8
    } else if i < 52 {
        97 + (i - 26) as u8
    } else if i < 62 {
        48 + (i - 52) as u8
    } else {
        95
    }
}

/// Every character of the symbol alphabet is a symbol character.
proof fn lemma_symbol_byte_is_symbol_char(i: int)
    requires
        0 <= i < SYMBOL_ALPHABET_LEN,
    ensures
        is_symbol_char(symbol_byte(i) as char),
{
}

/// The edge values favoured for `u32`: 0, 1, MAX, MAX - 1, MAX / 2.
pub open spec fn u32_edge(slot: int) -> u32 {
    if slot == 0 { 0 } else if slot == 1 { 1 } else if slot == 2 { u32::MAX } else if slot == 3 { (u32::MAX - 1) as u32 } else { u32::MAX / 2 }
}

/// The edge values favoured for `i32`: 0, 1, -1, MAX, MAX - 1, MIN, MIN + 1.
pub open spec fn i32_edge(slot: int) -> i32 {
    if slot == 0 { 0 } else if slot == 1 { 1 } else if slot == 2 { -1i32 } else if slot == 3 { i32::MAX } else if slot == 4 { (i32::MAX - 1) as i32 } else if slot == 5 { i32::MIN } else { (i32::MIN + 1) as i32 }
}

/// The edge values favoured for `u64`: 0, 1, MAX, MAX - 1, MAX / 2.
pub open spec fn u64_edge(slot: int) -> u64 {
    if slot == 0 { 0 } else if slot == 1 { 1 } else if slot == 2 { u64::MAX } else if slot == 3 { (u64::MAX - 1) as u64 } else { u64::MAX / 2 }
}

/// The edge values favoured for `i64`: 0, 1, -1, MAX, MAX - 1, MIN, MIN + 1.
pub open spec fn i64_edge(slot: int) -> i64 {
    if slot == 0 { 0 } else if slot == 1 { 1 } else if slot == 2 { -1i64 } else if slot == 3 { i64::MAX } else if slot == 4 { (i64::MAX - 1) as i64 } else if slot == 5 { i64::MIN } else { (i64::MIN + 1) as i64 }
}

/// The edge values favoured for `u128`: 0, 1, MAX, MAX - 1, MAX / 2.
pub open spec fn u128_edge(slot: int) -> u128 {
    if slot == 0 { 0 } else if slot == 1 { 1 } else if slot == 2 { u128::MAX } else if slot == 3 { (u128::MAX - 1) as u128 } else { u128::MAX / 2 }
}

/// The edge values favoured for `i128`: 0, 1, -1, MAX, MAX - 1, MIN.
pub open spec fn i128_edge(slot: int) -> i128 {
    if slot == 0 { 0 } else if slot == 1 { 1 } else if slot == 2 { -1i128 } else if slot == 3 { i128::MAX } else if slot == 4 { (i128::MAX - 1) as i128 } else { i128::MIN }
}

/// Edge value `slot` for `u32`.
pub fn edge_u32(slot: usize) -> (r: u32)
    requires
        slot < 5,
    ensures
        r == u32_edge(slot as int),
{
    match slot {
        0 => 0,
        1 => 1,
        2 => u32::MAX,
        3 => u32::MAX - 1,
        _ => u32::MAX / 2,
    }
}

/// Edge value `slot` for `i32`.
pub fn edge_i32(slot: usize) -> (r: i32)
    requires
        slot < 7,
    ensures
        r == i32_edge(slot as int),
{
    match slot {
        0 => 0,
        1 => 1,
        2 => -1,
        3 => i32::MAX,
        4 => i32::MAX - 1,
        5 => i32::MIN,
        _ => i32::MIN + 1,
    }
}

/// Edge value `slot` for `u64`.
pub fn edge_u64(slot: usize) -> (r: u64)
    requires
        slot < 5,
    ensures
        r == u64_edge(slot as int),
{
    match slot {
        0 => 0,
        1 => 1,
        2 => u64::MAX,
        3 => u64::MAX - 1,
        _ => u64::MAX / 2,
    }
}

/// Edge value `slot` for `i64`.
pub fn edge_i64(slot: usize) -> (r: i64)
    requires
        slot < 7,
    ensures
        r == i64_edge(slot as int),
{
    match slot {
        0 => 0,
        1 => 1,
        2 => -1,
        3 => i64::MAX,
        4 => i64::MAX - 1,
        5 => i64::MIN,
        _ => i64::MIN + 1,
    }
}

/// Edge value `slot` for `u128`.
pub fn edge_u128(slot: usize) -> (r: u128)
    requires
        slot < 5,
    ensures
        r == u128_edge(slot as int),
{
    match slot {
        0 => 0,
        1 => 1,
        2 => u128::MAX,
        3 => u128::MAX - 1,
        _ => u128::MAX / 2,
    }
}

/// Edge value `slot` for `i128`.
pub fn edge_i128(slot: usize) -> (r: i128)
    requires
        slot < 6,
    ensures
        r == i128_edge(slot as int),
{
    match slot {
        0 => 0,
        1 => 1,
        2 => -1,
        3 => i128::MAX,
        4 => i128::MAX - 1,
        _ => i128::MIN,
    }
}

/// The 128-bit value whose high 64 bits are `high` and low 64 bits are `low`.
pub fn join_u128(high: u64, low: u64) -> (r: u128)
    ensures
        r == high * 0x1_0000_0000_0000_0000 + low,
{
    let h = high as u128;
    let l = low as u128;
    assert((h << 64u128) | l == h * 0x1_0000_0000_0000_0000 + l) by (bit_vector)
        requires
            h < 0x1_0000_0000_0000_0000,
            l < 0x1_0000_0000_0000_0000,
    ;
    (h << 64u128) | l
}

/// The signed 128-bit value whose high 64 bits are `high` (sign-extended) and
/// low 64 bits are `low`.
pub fn join_i128(high: i64, low: u64) -> (r: i128)
    ensures
        r == high * 0x1_0000_0000_0000_0000 + low,
{
    let h = high as i128;
    let l = low as i128;
    assert((h << 64i128) | l == h * 0x1_0000_0000_0000_0000 + l) by (bit_vector)
        requires
            -0x8000_0000_0000_0000 <= h < 0x8000_0000_0000_0000,
            0 <= l < 0x1_0000_0000_0000_0000,
    ;
    (h << 64i128) | l
}

/// Chance, out of 10, that a numeric draw takes an edge value.
pub const EDGE_BIAS_TENTHS: u32 = 3;

/// The value of a biased `u32` draw: edge value `slot` when the coin came up,
/// else the raw draw.
pub fn pick_u32(coin: bool, slot: usize, raw: u32) -> (r: u32)
    requires
        slot < 5,
    ensures
        r == if coin { u32_edge(slot as int) } else { raw },
{
    if coin {
        edge_u32(slot)
    } else {
        raw
    }
}

/// The value of a biased `i32` draw: edge value `slot` when the coin came up,
/// else the raw draw.
pub fn pick_i32(coin: bool, slot: usize, raw: i32) -> (r: i32)
    requires
        slot < 7,
    ensures
        r == if coin { i32_edge(slot as int) } else { raw },
{
    if coin {
        edge_i32(slot)
    } else {
        raw
    }
}

/// The value of a biased `u64` draw: edge value `slot` when the coin came up,
/// else the raw draw.
pub fn pick_u64(coin: bool, slot: usize, raw: u64) -> (r: u64)
    requires
        slot < 5,
    ensures
        r == if coin { u64_edge(slot as int) } else { raw },
{
    if coin {
        edge_u64(slot)
    } else {
        raw
    }
}

/// The value of a biased `i64` draw: edge value `slot` when the coin came up,
/// else the raw draw.
pub fn pick_i64(coin: bool, slot: usize, raw: i64) -> (r: i64)
    requires
        slot < 7,
    ensures
        r == if coin { i64_edge(slot as int) } else { raw },
{
    if coin {
        edge_i64(slot)
    } else {
        raw
    }
}

/// The value of a biased `u128` draw: edge value `slot` when the coin came up,
/// else the raw draw.
pub fn pick_u128(coin: bool, slot: usize, raw: u128) -> (r: u128)
    requires
        slot < 5,
    ensures
        r == if coin { u128_edge(slot as int) } else { raw },
{
    if coin {
        edge_u128(slot)
    } else {
        raw
    }
}

/// The value of a biased `i128` draw: edge value `slot` when the coin came up,
/// else the raw draw.
pub fn pick_i128(coin: bool, slot: usize, raw: i128) -> (r: i128)
    requires
        slot < 6,
    ensures
        r == if coin { i128_edge(slot as int) } else { raw },
{
    if coin {
        edge_i128(slot)
    } else {
        raw
    }
}

/// The recorded draws `d` of a biased number: first a coin with a chance of
/// `EDGE_BIAS_TENTHS` in 10; when it came up, then a slot drawn over the whole
/// edge table of `slots` values; when it did not, no further recorded draw
/// (the raw value is drawn unrecorded).
pub open spec fn biased_draws(d: Seq<Draw>, slots: int) -> bool {
    &&& d.len() >= 1
    &&& d[0] matches Draw::Coin { numerator, denominator, .. } && numerator == EDGE_BIAS_TENTHS
        && denominator == 10
    &&& d.len() == if d[0]->Coin_value { 2int } else { 1int }
    &&& d.len() == 2 ==> ranged(d[1], 0, slots - 1)
}

/// `d` is a draw from `low..=high`.
pub open spec fn ranged(d: Draw, low: int, high: int) -> bool {
    d is Range && d->Range_low == low && d->Range_high == high
}

/// The edge slot drawn among the draws `d` of a biased number, if the coin
/// came up.
pub open spec fn edge_slot(d: Seq<Draw>) -> Option<int> {
    if d.len() == 2 && d[1] is Range {
        Some(d[1]->Range_value)
    } else {
        None
    }
}

/// A `u32` drawn with a 3-in-10 chance of being an edge value: when the
/// coin comes up, the edge value of a slot drawn over the whole table.
fn gen_biased_u32(rng: &mut ChaCha8Rng, log: &mut DrawLog) -> (r: u32)
    ensures
        extends(old(log).draws(), final(log).draws()),
        biased_draws(added(old(log).draws(), final(log).draws()), 5),
        edge_slot(added(old(log).draws(), final(log).draws())) matches Some(s) ==> r == u32_edge(s),
{
    let ghost start = log.draws();
    let coin = draw_coin(rng, log, EDGE_BIAS_TENTHS, 10);
    let slot = if coin {
        draw_index(rng, log, 0, 4)
    } else {
        0
    };
    let raw = if coin {
        0
    } else {
        draw_u32(rng)
    };
    assert(added(start, log.draws()) =~= log.draws().subrange(start.len() as int, log.draws().len() as int));
    pick_u32(coin, slot, raw)
}

/// An `i32` drawn with a 3-in-10 chance of being an edge value: when the
/// coin comes up, the edge value of a slot drawn over the whole table.
fn gen_biased_i32(rng: &mut ChaCha8Rng, log: &mut DrawLog) -> (r: i32)
    ensures
        extends(old(log).draws(), final(log).draws()),
        biased_draws(added(old(log).draws(), final(log).draws()), 7),
        edge_slot(added(old(log).draws(), final(log).draws())) matches Some(s) ==> r == i32_edge(s),
{
    let ghost start = log.draws();
    let coin = draw_coin(rng, log, EDGE_BIAS_TENTHS, 10);
    let slot = if coin {
        draw_index(rng, log, 0, 6)
    } else {
        0
    };
    let raw = if coin {
        0
    } else {
        draw_i32(rng)
    };
    assert(added(start, log.draws()) =~= log.draws().subrange(start.len() as int, log.draws().len() as int));
    pick_i32(coin, slot, raw)
}

/// A `u64` drawn with a 3-in-10 chance of being an edge value: when the
/// coin comes up, the edge value of a slot drawn over the whole table.
fn gen_biased_u64(rng: &mut ChaCha8Rng, log: &mut DrawLog) -> (r: u64)
    ensures
        extends(old(log).draws(), final(log).draws()),
        biased_draws(added(old(log).draws(), final(log).draws()), 5),
        edge_slot(added(old(log).draws(), final(log).draws())) matches Some(s) ==> r == u64_edge(s),
{
    let ghost start = log.draws();
    let coin = draw_coin(rng, log, EDGE_BIAS_TENTHS, 10);
    let slot = if coin {
        draw_index(rng, log, 0, 4)
    } else {
        0
    };
    let raw = if coin {
        0
    } else {
        draw_u64(rng)
    };
    assert(added(start, log.draws()) =~= log.draws().subrange(start.len() as int, log.draws().len() as int));
    pick_u64(coin, slot, raw)
}

/// An `i64` drawn with a 3-in-10 chance of being an edge value: when the
/// coin comes up, the edge value of a slot drawn over the whole table.
fn gen_biased_i64(rng: &mut ChaCha8Rng, log: &mut DrawLog) -> (r: i64)
    ensures
        extends(old(log).draws(), final(log).draws()),
        biased_draws(added(old(log).draws(), final(log).draws()), 7),
        edge_slot(added(old(log).draws(), final(log).draws())) matches Some(s) ==> r == i64_edge(s),
{
    let ghost start = log.draws();
    let coin = draw_coin(rng, log, EDGE_BIAS_TENTHS, 10);
    let slot = if coin {
        draw_index(rng, log, 0, 6)
    } else {
        0
    };
    let raw = if coin {
        0
    } else {
        draw_i64(rng)
    };
    assert(added(start, log.draws()) =~= log.draws().subrange(start.len() as int, log.draws().len() as int));
    pick_i64(coin, slot, raw)
}

/// A `u128` drawn with a 3-in-10 chance of being an edge value: when the
/// coin comes up, the edge value of a slot drawn over the whole table.
fn gen_biased_u128(rng: &mut ChaCha8Rng, log: &mut DrawLog) -> (r: u128)
    ensures
        extends(old(log).draws(), final(log).draws()),
        biased_draws(added(old(log).draws(), final(log).draws()), 5),
        edge_slot(added(old(log).draws(), final(log).draws())) matches Some(s) ==> r == u128_edge(s),
{
    let ghost start = log.draws();
    let coin = draw_coin(rng, log, EDGE_BIAS_TENTHS, 10);
    let slot = if coin {
        draw_index(rng, log, 0, 4)
    } else {
        0
    };
    let raw = if coin {
        0
    } else {
        let high = draw_u64(rng);
        let low = draw_u64(rng);
        join_u128(high, low)
    };
    assert(added(start, log.draws()) =~= log.draws().subrange(start.len() as int, log.draws().len() as int));
    pick_u128(coin, slot, raw)
}

/// An `i128` drawn with a 3-in-10 chance of being an edge value: when the
/// coin comes up, the edge value of a slot drawn over the whole table.
fn gen_biased_i128(rng: &mut ChaCha8Rng, log: &mut DrawLog) -> (r: i128)
    ensures
        extends(old(log).draws(), final(log).draws()),
        biased_draws(added(old(log).draws(), final(log).draws()), 6),
        edge_slot(added(old(log).draws(), final(log).draws())) matches Some(s) ==> r == i128_edge(s),
{
    let ghost start = log.draws();
    let coin = draw_coin(rng, log, EDGE_BIAS_TENTHS, 10);
    let slot = if coin {
        draw_index(rng, log, 0, 5)
    } else {
        0
    };
    let raw = if coin {
        0
    } else {
        let high = draw_i64(rng);
        let low = draw_u64(rng);
        join_i128(high, low)
    };
    assert(added(start, log.draws()) =~= log.draws().subrange(start.len() as int, log.draws().len() as int));
    pick_i128(coin, slot, raw)
}

/// How `value` of kind `kind` at `depth` is made from the draws `d` that its
/// generation recorded. A number comes from a coin and, when the coin came
/// up, the edge value of a slot drawn over the whole edge table. A symbol's
/// length is drawn from `1..=32`, then each character from the symbol
/// alphabet. A byte string's and a string's lengths are drawn from
/// `0..=length_cap(max_len)`, and each character of a string from the
/// printable range. An address is the one of the actor drawn from the pool.
/// A vector's length (a map's number of entries) is drawn from
/// `0..=max_len`, unless the depth is spent, when nothing is drawn. A choice
/// among kinds draws the kind, and the value has that kind's shape.
pub open spec fn made_from_draws(value: SorobanValue, kind: ValueKind, depth: nat, d: Seq<Draw>) -> bool {
    match kind {
        ValueKind::Bool => value is Bool,
        ValueKind::U32 => value matches SorobanValue::U32(x) && biased_draws(d, 5) && (edge_slot(d) matches Some(
            s,
        ) ==> x == u32_edge(s)),
        ValueKind::I32 => value matches SorobanValue::I32(x) && biased_draws(d, 7) && (edge_slot(d) matches Some(
            s,
        ) ==> x == i32_edge(s)),
        ValueKind::U64 => value matches SorobanValue::U64(x) && biased_draws(d, 5) && (edge_slot(d) matches Some(
            s,
        ) ==> x == u64_edge(s)),
        ValueKind::I64 => value matches SorobanValue::I64(x) && biased_draws(d, 7) && (edge_slot(d) matches Some(
            s,
        ) ==> x == i64_edge(s)),
        ValueKind::U128 => value matches SorobanValue::U128(x) && biased_draws(d, 5) && (edge_slot(d) matches Some(
            s,
        ) ==> x == u128_edge(s)),
        ValueKind::I128 => value matches SorobanValue::I128(x) && biased_draws(d, 6) && (edge_slot(d) matches Some(
            s,
        ) ==> x == i128_edge(s)),
        ValueKind::Symbol => value matches SorobanValue::Symbol(s) && d.len() == s@.len() + 1 && drew(
            d[0],
            1,
            32,
            s@.len() as int,
        ) && symbol_chars(s@, d.skip(1)),
        ValueKind::Bytes { max_len } => value matches SorobanValue::Bytes(b) && d.len() == 1 && drew(
            d[0],
            0,
            length_cap(max_len) as int,
            b@.len() as int,
        ),
        ValueKind::StringVal { max_len } => value matches SorobanValue::StringVal(s) && d.len() == s@.len() + 1
            && drew(d[0], 0, length_cap(max_len) as int, s@.len() as int) && string_chars(s@, d.skip(1)),
        ValueKind::Address => value matches SorobanValue::Address(s) && d.len() == 1 && ranged(
            d[0],
            0,
            ADDRESS_POOL_SIZE - 1,
        ) && s@ == address_label(d[0]->Range_value as u32),
        ValueKind::Vec(_, max_len) => value matches SorobanValue::Vec(items) && if depth == 0 {
            d.len() == 0
        } else {
            d.len() >= 1 && drew(d[0], 0, max_len as int, items@.len() as int)
        },
        ValueKind::MapVal(_, _, max_entries) => value matches SorobanValue::MapVal(entries) && if depth == 0 {
            d.len() == 0
        } else {
            d.len() >= 1 && drew(d[0], 0, max_entries as int, entries@.len() as int)
        },
        ValueKind::OneOf(kinds) => d.len() >= 1 && ranged(d[0], 0, kinds@.len() - 1) && conforms(
            value,
            kinds@[d[0]->Range_value],
            depth,
        ),
    }
}

/// `e` holds one draw per character of `s`, in order, each over the symbol
/// alphabet, giving the alphabet's character at that slot.
pub open spec fn symbol_chars(s: Seq<char>, e: Seq<Draw>) -> bool {
    &&& e.len() == s.len()
    &&& forall|k: int|
        #![trigger s[k]]
        #![trigger e[k]]
        0 <= k < s.len() ==> (ranged(e[k], 0, SYMBOL_ALPHABET_LEN - 1) && s[k] == (symbol_byte(
            e[k]->Range_value,
        ) as char))
}

/// `e` holds one draw per character of `s`, in order, each over
/// `0x20..=0x7d`, giving that character's code.
pub open spec fn string_chars(s: Seq<char>, e: Seq<Draw>) -> bool {
    &&& e.len() == s.len()
    &&& forall|k: int| #![trigger s[k]] #![trigger e[k]] 0 <= k < s.len() ==> drew(e[k], 0x20, 0x7d, s[k] as int)
}

proof fn lemma_symbol_chars_push(s: Seq<char>, e: Seq<Draw>, idx: int)
    requires
        symbol_chars(s, e),
        0 <= idx < SYMBOL_ALPHABET_LEN,
    ensures
        symbol_chars(
            s.push(symbol_byte(idx) as char),
            e.push(Draw::Range { low: 0, high: SYMBOL_ALPHABET_LEN - 1, value: idx }),
        ),
{
    let s2 = s.push(symbol_byte(idx) as char);
    let e2 = e.push(Draw::Range { low: 0, high: SYMBOL_ALPHABET_LEN - 1, value: idx });
    assert forall|k: int| 0 <= k < s2.len() implies (ranged(#[trigger] e2[k], 0, SYMBOL_ALPHABET_LEN - 1)
        && s2[k] == (symbol_byte(e2[k]->Range_value) as char)) by {
        if k < s.len() {
            assert(s2[k] == s[k]);
            assert(e2[k] == e[k]);
        }
    }
}

proof fn lemma_string_chars_push(s: Seq<char>, e: Seq<Draw>, code: int)
    requires
        string_chars(s, e),
        0x20 <= code <= 0x7d,
    ensures
        string_chars(s.push(code as char), e.push(Draw::Range { low: 0x20, high: 0x7d, value: code })),
{
    let s2 = s.push(code as char);
    let e2 = e.push(Draw::Range { low: 0x20, high: 0x7d, value: code });
    assert forall|k: int| 0 <= k < s2.len() implies drew(#[trigger] e2[k], 0x20, 0x7d, s2[k] as int) by {
        if k < s.len() {
            assert(s2[k] == s[k]);
            assert(e2[k] == e[k]);
        }
    }
}

/// A symbol: its length drawn from `1..=32`, then each character drawn from
/// the symbol alphabet.
fn gen_symbol(rng: &mut ChaCha8Rng, log: &mut DrawLog) -> (s: String)
    ensures
        1 <= s@.len() <= 32,
        forall|i: int| 0 <= i < s@.len() ==> is_symbol_char(#[trigger] s@[i]),
        extends(old(log).draws(), final(log).draws()),
        added(old(log).draws(), final(log).draws()).len() == s@.len() + 1,
        drew(added(old(log).draws(), final(log).draws())[0], 1, 32, s@.len() as int),
        symbol_chars(s@, added(old(log).draws(), final(log).draws()).skip(1)),
{
    let ghost start = log.draws();
    let len: i32 = draw_i32_range(rng, log, 1, 32);
    let mut s = String::new();
    let mut k: i32 = 0;
    while k < len
        invariant
            0 <= k <= len <= 32,
            1 <= len,
            s@.len() == k,
            forall|i: int| 0 <= i < s@.len() ==> is_symbol_char(#[trigger] s@[i]),
            extends(start, log.draws()),
            log.draws().len() == start.len() + 1 + k,
            drew(log.draws()[start.len() as int], 1, 32, len as int),
            symbol_chars(s@, log.draws().subrange(start.len() + 1int, log.draws().len() as int)),
        decreases len - k,
    {
        let ghost before = log.draws();
        let idx = draw_index(rng, log, 0, SYMBOL_ALPHABET_LEN - 1);
        let b = symbol_alphabet_byte(idx);
        proof {
            lemma_symbol_byte_is_symbol_char(idx as int);
            lemma_symbol_chars_push(s@, before.subrange(start.len() + 1int, before.len() as int), idx as int);
            assert(log.draws().subrange(start.len() + 1int, log.draws().len() as int) =~= before.subrange(
                start.len() + 1int,
                before.len() as int,
            ).push(Draw::Range { low: 0, high: SYMBOL_ALPHABET_LEN - 1, value: idx as int }));
        }
        push_char(&mut s, b as char);
        k = k + 1;
    }
    proof {
        assert(added(start, log.draws()).skip(1) =~= log.draws().subrange(start.len() + 1int, log.draws().len() as int));
    }
    s
}
/// A string: its length drawn from `0..=length_cap(max_len)`, then each
/// character drawn from the printable range `0x20..=0x7d`.
fn gen_string(rng: &mut ChaCha8Rng, log: &mut DrawLog, max_len: usize) -> (s: String)
    ensures
        s@.len() <= length_cap(max_len),
        forall|i: int| 0 <= i < s@.len() ==> is_generated_printable(#[trigger] s@[i]),
        extends(old(log).draws(), final(log).draws()),
        added(old(log).draws(), final(log).draws()).len() == s@.len() + 1,
        drew(added(old(log).draws(), final(log).draws())[0], 0, length_cap(max_len) as int, s@.len() as int),
        string_chars(s@, added(old(log).draws(), final(log).draws()).skip(1)),
{
    let ghost start = log.draws();
    let cap: usize = if max_len < 1 { 1 } else { max_len };
    let len = draw_index(rng, log, 0, cap);
    let mut s = String::new();
    let mut k: usize = 0;
    while k < len
        invariant
            k <= len <= cap,
            cap == length_cap(max_len),
            s@.len() == k,
            forall|i: int| 0 <= i < s@.len() ==> is_generated_printable(#[trigger] s@[i]),
            extends(start, log.draws()),
            log.draws().len() == start.len() + 1 + k,
            drew(log.draws()[start.len() as int], 0, cap as int, len as int),
            string_chars(s@, log.draws().subrange(start.len() + 1int, log.draws().len() as int)),
        decreases len - k,
    {
        let ghost before = log.draws();
        let b = draw_u8_range(rng, log, 0x20, 0x7d);
        proof {
            lemma_string_chars_push(s@, before.subrange(start.len() + 1int, before.len() as int), b as int);
            assert(log.draws().subrange(start.len() + 1int, log.draws().len() as int) =~= before.subrange(
                start.len() + 1int,
                before.len() as int,
            ).push(Draw::Range { low: 0x20, high: 0x7d, value: b as int }));
        }
        push_char(&mut s, b as char);
        k = k + 1;
    }
    proof {
        assert(added(start, log.draws()).skip(1) =~= log.draws().subrange(start.len() + 1int, log.draws().len() as int));
    }
    s
}

/// The recorded draws `d` of an `i128` that came out as `x`: a coin with a
/// chance of `EDGE_BIAS_TENTHS` in 10 and, when it came up, a slot drawn over
/// the whole edge table `0..=5`, `x` being the edge value at that slot.
pub open spec fn i128_drawn(d: Seq<Draw>, x: i128) -> bool {
    &&& d.len() >= 1
    &&& d[0] is Coin && d[0]->Coin_numerator == EDGE_BIAS_TENTHS && d[0]->Coin_denominator == 10
    &&& d[0]->Coin_value ==> d.len() == 2 && d[1] is Range && d[1]->Range_low == 0 && d[1]->Range_high == 5
        && x == i128_edge(d[1]->Range_value)
}

impl SorobanValue {
    /// A random value of the shape `kind` describes. Nested `Vec`/`Map` kinds
    /// recurse at most `depth` levels: at depth 0 they come back empty.
    pub fn arbitrary(rng: &mut ChaCha8Rng, kind: &ValueKind, depth: u8) -> (value: SorobanValue)
        requires
            generable(*kind, depth as nat),
        ensures
            conforms(value, *kind, depth as nat),
            nested_within(value, depth as nat),
            depth == 0 && (*kind is Vec || *kind is MapVal) ==> *final(rng) == *old(rng),
    {
        let mut log = DrawLog::new();
        Self::arbitrary_recorded(rng, &mut log, kind, depth)
    }

    /// `arbitrary`, recording its draws in `log`: the value is made from them
    /// as `made_from_draws` states.
    pub fn arbitrary_recorded(rng: &mut ChaCha8Rng, log: &mut DrawLog, kind: &ValueKind, depth: u8) -> (value:
        SorobanValue)
        requires
            generable(*kind, depth as nat),
        ensures
            conforms(value, *kind, depth as nat),
            nested_within(value, depth as nat),
            depth == 0 && (*kind is Vec || *kind is MapVal) ==> *final(rng) == *old(rng),
            extends(old(log).draws(), final(log).draws()),
            made_from_draws(value, *kind, depth as nat, added(old(log).draws(), final(log).draws())),
            *kind is Vec && depth > 0 ==> value is Vec && added(old(log).draws(), final(log).draws()).len() >= 1
                && drew(
                added(old(log).draws(), final(log).draws())[0],
                0,
                kind->Vec_1 as int,
                value->Vec_0@.len() as int,
            ),
            *kind is MapVal && depth > 0 ==> value is MapVal && added(old(log).draws(), final(log).draws()).len()
                >= 1 && drew(
                added(old(log).draws(), final(log).draws())[0],
                0,
                kind->MapVal_2 as int,
                value->MapVal_0@.len() as int,
            ),
            *kind is I128 ==> value is I128 && i128_drawn(
                added(old(log).draws(), final(log).draws()),
                value->I128_0,
            ),
        decreases kind, 1int,
    {
        let ghost start = log.draws();
        let value = match kind {
            ValueKind::Bool => SorobanValue::Bool(draw_bool(rng)),
            ValueKind::U32 => SorobanValue::U32(gen_biased_u32(rng, log)),
            ValueKind::I32 => SorobanValue::I32(gen_biased_i32(rng, log)),
            ValueKind::U64 => SorobanValue::U64(gen_biased_u64(rng, log)),
            ValueKind::I64 => SorobanValue::I64(gen_biased_i64(rng, log)),
            ValueKind::U128 => SorobanValue::U128(gen_biased_u128(rng, log)),
            ValueKind::I128 => SorobanValue::I128(gen_biased_i128(rng, log)),
            ValueKind::Symbol => SorobanValue::Symbol(gen_symbol(rng, log)),
            ValueKind::Bytes { max_len } => {
                let cap: usize = if *max_len < 1 { 1 } else { *max_len };
                let len = draw_index(rng, log, 0, cap);
                let mut bytes: Vec<u8> = Vec::new();
                let mut k: usize = 0;
                while k < len
                    invariant
                        k <= len,
                        bytes@.len() == k,
                    decreases len - k,
                {
                    bytes.push(draw_u8(rng));
                    k = k + 1;
                }
                SorobanValue::Bytes(bytes)
            },
            ValueKind::StringVal { max_len } => SorobanValue::StringVal(gen_string(rng, log, *max_len)),
            ValueKind::Address => {
                // A small fixed pool of actors, so the same address recurs
                // across the calls of one sequence.
                let idx = draw_u32_range(rng, log, 0, ADDRESS_POOL_SIZE - 1);
                SorobanValue::Address(actor_address(idx))
            },
            ValueKind::Vec(elem_kind, max_len) => {
                if depth == 0 {
                    SorobanValue::Vec(Vec::new())
                } else {
                    let len = draw_index(rng, log, 0, *max_len);
                    SorobanValue::Vec(arbitrary_items(rng, log, kind, len, depth - 1))
                }
            },
            ValueKind::MapVal(key_kind, val_kind, max_entries) => {
                if depth == 0 {
                    SorobanValue::MapVal(Vec::new())
                } else {
                    let len = draw_index(rng, log, 0, *max_entries);
                    SorobanValue::MapVal(arbitrary_entries(rng, log, kind, len, depth - 1))
                }
            },
            ValueKind::OneOf(kinds) => {
                let idx = draw_index(rng, log, 0, kinds.len() - 1);
                let v = SorobanValue::arbitrary_recorded(rng, log, &kinds[idx], depth);
                assert(conforms(v, kinds@[idx as int], depth as nat));
                v
            },
        };
        assert(conforms(value, *kind, depth as nat));
        proof {
            lemma_conforming_value_is_depth_bounded(value, *kind, depth as nat);
            let d = added(start, log.draws());
            assert forall|i: int| 0 <= i < d.len() implies #[trigger] d[i] == log.draws()[start.len() + i] by {}
            assert(made_from_draws(value, *kind, depth as nat, d));
        }
        value
    }
}

/// `len` random elements for the vector kind `vec_kind`, generated in order.
fn arbitrary_items(rng: &mut ChaCha8Rng, log: &mut DrawLog, vec_kind: &ValueKind, len: usize, depth: u8) -> (items: Vec<
    SorobanValue,
>)
    requires
        *vec_kind matches ValueKind::Vec(elem, _) && (len == 0 || generable(*elem, depth as nat)),
    ensures
        *vec_kind matches ValueKind::Vec(elem, _) && forall|i: int|
            0 <= i < items@.len() ==> conforms(#[trigger] items@[i], *elem, depth as nat),
        items@.len() == len,
        extends(old(log).draws(), final(log).draws()),
    decreases vec_kind, 0int,
{
    let mut items: Vec<SorobanValue> = Vec::new();
    let mut k: usize = 0;
    while k < len
        invariant
            k <= len,
            *vec_kind matches ValueKind::Vec(elem, _) && (len == 0 || generable(*elem, depth as nat)),
            *vec_kind matches ValueKind::Vec(elem, _) && forall|i: int|
                0 <= i < items@.len() ==> conforms(#[trigger] items@[i], *elem, depth as nat),
            items@.len() == k,
            extends(old(log).draws(), log.draws()),
        decreases len - k,
    {
        match vec_kind {
            ValueKind::Vec(elem, _) => {
                let item = SorobanValue::arbitrary_recorded(rng, log, elem, depth);
                items.push(item);
            },
            _ => {},
        }
        k = k + 1;
    }
    items
}

/// `len` random entries for the map kind `map_kind`, each key generated
/// before its value.
fn arbitrary_entries(rng: &mut ChaCha8Rng, log: &mut DrawLog, map_kind: &ValueKind, len: usize, depth: u8) -> (entries:
    Vec<(SorobanValue, SorobanValue)>)
    requires
        *map_kind matches ValueKind::MapVal(key, val, _) && (len == 0 || (generable(*key, depth as nat)
            && generable(*val, depth as nat))),
    ensures
        *map_kind matches ValueKind::MapVal(key, val, _) && forall|i: int|
            0 <= i < entries@.len() ==> conforms(#[trigger] entries@[i].0, *key, depth as nat)
                && conforms(entries@[i].1, *val, depth as nat),
        entries@.len() == len,
        extends(old(log).draws(), final(log).draws()),
    decreases map_kind, 0int,
{
    let mut entries: Vec<(SorobanValue, SorobanValue)> = Vec::new();
    let mut k: usize = 0;
    while k < len
        invariant
            k <= len,
            *map_kind matches ValueKind::MapVal(key, val, _) && (len == 0 || (generable(
                *key,
                depth as nat,
            ) && generable(*val, depth as nat))),
            *map_kind matches ValueKind::MapVal(key, val, _) && forall|i: int|
                0 <= i < entries@.len() ==> conforms(#[trigger] entries@[i].0, *key, depth as nat)
                    && conforms(entries@[i].1, *val, depth as nat),
            entries@.len() == k,
            extends(old(log).draws(), log.draws()),
        decreases len - k,
    {
        match map_kind {
            ValueKind::MapVal(key, val, _) => {
                let key_value = SorobanValue::arbitrary_recorded(rng, log, key, depth);
                let val_value = SorobanValue::arbitrary_recorded(rng, log, val, depth);
                entries.push((key_value, val_value));
            },
            _ => {},
        }
        k = k + 1;
    }
    entries
}

impl ValueKind {
    /// Whether generating this kind at `depth` can never hit an empty choice.
    pub fn is_generable(&self, depth: u8) -> (ok: bool)
        ensures
            ok == generable(*self, depth as nat),
        decreases self, 1int,
    {
        match self {
            ValueKind::Vec(elem, max_len) => depth == 0 || *max_len == 0 || elem.is_generable(depth - 1),
            ValueKind::MapVal(key, val, max_entries) => depth == 0 || *max_entries == 0 || (
            key.is_generable(depth - 1) && val.is_generable(depth - 1)),
            ValueKind::OneOf(kinds) => kinds.len() > 0 && all_generable(kinds, depth),
            _ => true,
        }
    }
}

/// A kind that is neither a container nor a choice can always be generated,
/// at every depth: booleans, numbers, symbols, bytes, strings and addresses
/// (from the fixed pool) never hit an empty choice.
pub proof fn lemma_plain_kinds_generable(kind: ValueKind, depth: nat)
    requires
        !(kind is Vec || kind is MapVal || kind is OneOf),
    ensures
        generable(kind, depth),
{
}

/// Whether every kind of `kinds` is generable at `depth`.
fn all_generable(kinds: &Vec<ValueKind>, depth: u8) -> (ok: bool)
    ensures
        ok == forall|i: int| 0 <= i < kinds@.len() ==> generable(#[trigger] kinds@[i], depth as nat),
    decreases kinds, 0int,
{
    let mut i: usize = 0;
    while i < kinds.len()
        invariant
            i <= kinds@.len(),
            forall|j: int| 0 <= j < i ==> generable(#[trigger] kinds@[j], depth as nat),
        decreases kinds@.len() - i,
    {
        proof {
            assert(decreases_to!(*kinds => kinds[i as int]));
        }
        if !kinds[i].is_generable(depth) {
            return false;
        }
        i = i + 1;
    }
    true
}

} // verus!
