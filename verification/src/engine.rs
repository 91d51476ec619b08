//! Sharded cells: mixing, identifiers, shards and the partition of work.
use crate::node;
use crate::text;
use crate::text::{chars_of, parse_number, text_is, trim};
use vstd::prelude::*;

verus! {

pub const VALUE: u64 = 100;

/// An amount of money under an identifier.
#[derive(Clone, Copy, Debug, PartialEq, Eq, Structural)]
pub struct Cell {
    pub id: u64,
    pub value: u64,
    pub generation: u64,
}

// ---------------------------------------------------------------------------
// Mixing.
// ---------------------------------------------------------------------------

/// A number with its bits mixed.
#[verifier::opaque]
pub open spec fn mixed(x: u64) -> u64 {
    let a = (x ^ (x >> 30)).wrapping_mul(0xbf58476d1ce4e5b9);
    let b = (a ^ (a >> 27)).wrapping_mul(0x94d049bb133111eb);
    b ^ (b >> 31)
}

pub fn mix64(x: u64) -> (r: u64)
    ensures
        r == mixed(x),
{
    proof {
        reveal(mixed);
    }
    let a: u64 = (x ^ (x >> 30)).wrapping_mul(0xbf58476d1ce4e5b9);
    let b: u64 = (a ^ (a >> 27)).wrapping_mul(0x94d049bb133111eb);
    b ^ (b >> 31)
}

proof fn lemma_odd_factor(x: u64, y: u64, c: u64, d: u64, k: int)
    requires
        c * d == k * 0x1_0000_0000_0000_0000 + 1,
        x.wrapping_mul(c) == y.wrapping_mul(c),
    ensures
        x == y,
{
    let m: int = 0x1_0000_0000_0000_0000;
    let (a, b) = ((x * c) as int, (y * c) as int);
    assert(a % m == b % m);
    vstd::arithmetic::div_mod::lemma_mul_mod_noop_left(a, d as int, m);
    vstd::arithmetic::div_mod::lemma_mul_mod_noop_left(b, d as int, m);
    assert((a * d) % m == (b * d) % m);
    assert(a * d == m * (x * k) + x) by (nonlinear_arith)
        requires
            a == x * c,
            c * d == k * m + 1,
    ;
    assert(b * d == m * (y * k) + y) by (nonlinear_arith)
        requires
            b == y * c,
            c * d == k * m + 1,
    ;
    vstd::arithmetic::div_mod::lemma_mod_multiples_vanish(x * k, x as int, m);
    vstd::arithmetic::div_mod::lemma_mod_multiples_vanish(y * k, y as int, m);
}

/// Mixing is one to one: different numbers stay different.
pub proof fn law_mixing_is_one_to_one(x: u64, y: u64)
    requires
        mixed(x) == mixed(y),
    ensures
        x == y,
{
    reveal(mixed);
    let (p, q) = (x ^ (x >> 30), y ^ (y >> 30));
    let (a, c) = (p.wrapping_mul(0xbf58476d1ce4e5b9), q.wrapping_mul(0xbf58476d1ce4e5b9));
    let (r, t) = (a ^ (a >> 27), c ^ (c >> 27));
    let (b, d) = (r.wrapping_mul(0x94d049bb133111eb), t.wrapping_mul(0x94d049bb133111eb));
    assert(b == d) by (bit_vector)
        requires
            b ^ (b >> 31) == d ^ (d >> 31),
    ;
    lemma_odd_factor(r, t, 0x94d049bb133111eb, 0x319642b2d24d8ec3, 0x1cd336eda85f1453);
    assert(a == c) by (bit_vector)
        requires
            a ^ (a >> 27) == c ^ (c >> 27),
    ;
    lemma_odd_factor(p, q, 0xbf58476d1ce4e5b9, 0x96de1b173f119089, 0x70c3bca78f27f46c);
    assert(x == y) by (bit_vector)
        requires
            x ^ (x >> 30) == y ^ (y >> 30),
    ;
}

/// A number with its bits turned to the left.
pub open spec fn turned(x: u64, n: u32) -> u64 {
    if n == 0 {
        x
    } else {
        (x << n) | (x >> ((64 - n) as u32))
    }
}

pub fn turn(x: u64, n: u32) -> (r: u64)
    requires
        n < 64,
    ensures
        r == turned(x, n),
{
    if n == 0 {
        x
    } else {
        (x << n) | (x >> (64 - n))
    }
}

/// The first eight bytes, or fewer, as a number, the first byte lowest.
pub open spec fn low_bytes(bytes: Seq<u8>, n: int) -> u64
    decreases n,
{
    if n <= 0 || n > bytes.len() {
        0
    } else {
        low_bytes(bytes, n - 1) | ((bytes[n - 1] as u64) << (((n - 1) * 8) as u32))
    }
}

/// How many bytes count.
pub open spec fn counted_bytes(len: nat) -> int {
    if len < 8 {
        len as int
    } else {
        8
    }
}

/// A hasher for identifiers: what was written last decides.
#[derive(Clone, Copy, Debug)]
pub struct U64Hasher {
    pub state: u64,
}

impl U64Hasher {
    pub fn new() -> (r: Self)
        ensures
            r.state == 0,
    {
        U64Hasher { state: 0 }
    }

    pub fn write(&mut self, bytes: &[u8])
        ensures
            final(self).state == mixed(low_bytes(bytes@, counted_bytes(bytes@.len()))),
    {
        let mut x: u64 = 0;
        let mut i: usize = 0;
        while i < bytes.len() && i < 8
            invariant
                i <= 8,
                i <= bytes@.len(),
                x == low_bytes(bytes@, i as int),
            decreases 8 - i,
        {
            x = x | ((bytes[i] as u64) << ((i * 8) as u32));
            i = i + 1;
        }
        self.state = mix64(x);
    }

    pub fn write_u64(&mut self, i: u64)
        ensures
            final(self).state == mixed(i),
    {
        self.state = mix64(i);
    }

    pub fn finish(&self) -> (r: u64)
        ensures
            r == self.state,
    {
        self.state
    }
}

// ---------------------------------------------------------------------------
// Identifiers and shards.
// ---------------------------------------------------------------------------

/// The identifier with a local part and a shard.
pub open spec fn id_at(local: u64, shard: usize, bits: u32) -> u64 {
    (local << bits) | (shard as u64)
}

pub fn make_id(local: u64, shard: usize, bits: u32) -> (r: u64)
    requires
        bits < 64,
    ensures
        r == id_at(local, shard, bits),
{
    (local << bits) | (shard as u64)
}

/// The shard that an identifier names.
pub open spec fn shard_in(id: u64, mask: u64) -> usize {
    (id & mask) as usize
}

pub fn shard_of(id: u64, shard_mask: u64) -> (r: usize)
    ensures
        r == shard_in(id, shard_mask),
{
    (id & shard_mask) as usize
}

/// The identifier that follows a cell's, in the same shard.
pub open spec fn successor(cell: Cell, serial: u64, bits: u32, mask: u64) -> u64 {
    let local = mixed(
        (cell.id >> bits) ^ turned(cell.generation, 17) ^ turned(serial, 31) ^ cell.value,
    ) >> bits;
    (local << bits) | (shard_in(cell.id, mask) as u64)
}

pub fn successor_id(cell: Cell, serial: u64, shard_bits: u32, shard_mask: u64) -> (r: u64)
    requires
        shard_bits < 64,
    ensures
        r == successor(cell, serial, shard_bits, shard_mask),
{
    let shard: u64 = shard_of(cell.id, shard_mask) as u64;
    let seed: u64 = (cell.id >> shard_bits) ^ turn(cell.generation, 17) ^ turn(serial, 31)
        ^ cell.value;
    let local: u64 = mix64(seed) >> shard_bits;
    (local << shard_bits) | shard
}

/// The shards are as many as `bits` bits can name.
pub open spec fn shard_bits_ok(shards: usize, bits: u32) -> bool {
    bits < 64 && shards as u64 == 1u64 << bits && shards > 0
}

/// How many bits name the shards, if their number is a power of two.
pub fn shard_bits(shards: usize) -> (r: Option<u32>)
    ensures
        match r {
            Some(bits) => shard_bits_ok(shards, bits),
            None => forall|bits: u32| !shard_bits_ok(shards, bits),
        },
{
    let mut bits: u32 = 0;
    while bits < 64
        invariant
            bits <= 64,
            forall|b: u32| b < bits ==> !shard_bits_ok(shards, b),
        decreases 64 - bits,
    {
        if shards as u64 == 1u64 << bits && shards > 0 {
            return Some(bits);
        }
        bits = bits + 1;
    }
    None
}

/// A local part that an identifier can hold in full.
pub open spec fn narrow(local: u64, bits: u32) -> bool {
    (local << bits) >> bits == local
}

proof fn lemma_shard_bits(local: u64, s: u64, b: u32, mask: u64)
    requires
        b < 64,
        mask + 1 == 1u64 << b,
        s <= mask,
    ensures
        ((local << b) | s) & mask == s,
{
    assert(((local << b) | s) & mask == s) by (bit_vector)
        requires
            b < 64,
            mask + 1 == 1u64 << b,
            s <= mask,
    ;
}

/// The mask of the shards.
pub open spec fn mask_of(shards: usize) -> u64 {
    (shards - 1) as u64
}

pub proof fn lemma_mask(shards: usize, bits: u32)
    requires
        shard_bits_ok(shards, bits),
    ensures
        mask_of(shards) + 1 == 1u64 << bits,
{
}

/// An identifier names the shard that it was made for.
pub proof fn law_id_names_its_shard(local: u64, shard: usize, shards: usize, bits: u32)
    requires
        shard_bits_ok(shards, bits),
        shard < shards,
    ensures
        shard_in(id_at(local, shard, bits), mask_of(shards)) == shard,
{
    lemma_mask(shards, bits);
    lemma_shard_bits(local, shard as u64, bits, mask_of(shards));
}

/// A successor stays in the shard of its cell.
pub proof fn law_shard_is_preserved(cell: Cell, serial: u64, shards: usize, bits: u32)
    requires
        shard_bits_ok(shards, bits),
    ensures
        shard_in(successor(cell, serial, bits, mask_of(shards)), mask_of(shards)) == shard_in(
            cell.id,
            mask_of(shards),
        ),
{
    let mask = mask_of(shards);
    let s = cell.id & mask;
    lemma_mask(shards, bits);
    let id = cell.id;
    assert(id & mask <= mask) by (bit_vector);
    let local = mixed(
        (cell.id >> bits) ^ turned(cell.generation, 17) ^ turned(serial, 31) ^ cell.value,
    ) >> bits;
    assert(shard_in(cell.id, mask) as u64 == s);
    lemma_shard_bits(local, s, bits, mask);
}

/// Different local parts or different shards make different identifiers.
pub proof fn law_ids_are_distinct(
    a: u64,
    s: usize,
    b: u64,
    t: usize,
    shards: usize,
    bits: u32,
)
    requires
        shard_bits_ok(shards, bits),
        s < shards,
        t < shards,
        narrow(a, bits),
        narrow(b, bits),
        id_at(a, s, bits) == id_at(b, t, bits),
    ensures
        a == b,
        s == t,
{
    lemma_mask(shards, bits);
    let (x, y, m) = (s as u64, t as u64, mask_of(shards));
    lemma_shard_bits(a, x, bits, m);
    lemma_shard_bits(b, y, bits, m);
    assert(a == b) by (bit_vector)
        requires
            bits < 64,
            m + 1 == 1u64 << bits,
            x <= m,
            y <= m,
            (a << bits) >> bits == a,
            (b << bits) >> bits == b,
            ((a << bits) | x) == ((b << bits) | y),
    ;
}

/// A smaller local part fits where a larger one does.
pub proof fn lemma_narrow(a: u64, b: u64, bits: u32)
    requires
        a <= b,
        bits < 64,
        narrow(b, bits),
    ensures
        narrow(a, bits),
{
    assert((a << bits) >> bits == a) by (bit_vector)
        requires
            a <= b,
            bits < 64,
            (b << bits) >> bits == b,
    ;
}

/// The shard that a number falls into.
pub open spec fn shard_for(x: u64, salt: u64, shards: usize) -> usize {
    (mixed(x ^ salt) as usize) & ((shards - 1) as usize)
}

pub proof fn lemma_shard_for(x: u64, salt: u64, shards: usize)
    requires
        shards > 0,
    ensures
        shard_for(x, salt, shards) < shards,
{
    let (h, m) = (mixed(x ^ salt) as usize, (shards - 1) as usize);
    assert(h & m <= m) by (bit_vector);
}

/// The shard that a number falls into.
pub fn salted_shard(x: u64, salt: u64, shards: usize) -> (r: usize)
    requires
        shards > 0,
    ensures
        r == shard_for(x, salt, shards),
        r < shards,
{
    proof {
        lemma_shard_for(x, salt, shards);
    }
    (mix64(x ^ salt) as usize) & (shards - 1)
}

// ---------------------------------------------------------------------------
// The partition of work.
// ---------------------------------------------------------------------------

/// How many of `total` items, dealt out in turn, a stream gets.
pub open spec fn dealt(total: int, streams: int, stream: int) -> int {
    total / streams + if stream < total % streams {
        1int
    } else {
        0
    }
}

pub fn stream_count(total: u64, streams: usize, stream: usize) -> (r: u64)
    requires
        streams > 0,
    ensures
        r == dealt(total as int, streams as int, stream as int),
{
    let base: u64 = total / (streams as u64);
    let extra: u64 = total % (streams as u64);
    proof {
        assert(total / (streams as u64) < u64::MAX || extra == 0) by (nonlinear_arith)
            requires
                streams > 0,
                extra == total % (streams as u64),
        ;
    }
    if (stream as u64) < extra {
        base + 1
    } else {
        base
    }
}

/// The items of the first `n` streams.
pub open spec fn dealt_sum(total: int, streams: int, n: int) -> int
    decreases n,
{
    if n <= 0 {
        0
    } else {
        dealt_sum(total, streams, n - 1) + dealt(total, streams, n - 1)
    }
}

proof fn lemma_dealt_sum(total: int, streams: int, n: int)
    requires
        0 <= total,
        0 < streams,
        0 <= n <= streams,
    ensures
        dealt_sum(total, streams, n) == n * (total / streams) + if n < total % streams {
            n
        } else {
            total % streams
        },
    decreases n,
{
    assert(0 <= total % streams < streams) by (nonlinear_arith)
        requires
            0 <= total,
            0 < streams,
    ;
    if n > 0 {
        lemma_dealt_sum(total, streams, n - 1);
        assert((n - 1) * (total / streams) + total / streams == n * (total / streams))
            by (nonlinear_arith);
    } else {
        assert(0 * (total / streams) == 0) by (nonlinear_arith);
    }
}

/// The streams get all items between them.
pub proof fn law_streams_cover_all(total: int, streams: int)
    requires
        0 <= total,
        0 < streams,
    ensures
        dealt_sum(total, streams, streams) == total,
{
    lemma_dealt_sum(total, streams, streams);
    assert(0 <= total % streams < streams) by (nonlinear_arith)
        requires
            0 <= total,
            0 < streams,
    ;
    assert(streams * (total / streams) + total % streams == total) by (nonlinear_arith)
        requires
            0 < streams,
    ;
}

/// Some item from `start` up to `end` belongs to a stream.
pub open spec fn stream_in_range(start: int, end: int, streams: int, stream: int) -> bool {
    exists|i: int| start <= i < end && #[trigger] (i % streams) == stream
}

pub fn stream_has_range(start: u64, end: u64, streams: usize, stream: usize) -> (r: bool)
    requires
        streams > 0,
        start + streams <= u64::MAX,
    ensures
        r == stream_in_range(
            start as int,
            end as int,
            streams as int,
            stream as int % streams as int,
        ),
{
    if start >= end {
        return false;
    }
    let m: u64 = streams as u64;
    let own: u64 = stream as u64 % m;
    let rem: u64 = start % m;
    let delta: u64 = if own >= rem {
        own - rem
    } else {
        own + (m - rem)
    };
    proof {
        let (a, b) = (own as int, m as int);
        assert(0 <= stream as int % b < b);
        lemma_first_of_stream(start as int, b, a);
        assert(delta == first_delta(start as int, b, a)) by {
            if own >= rem {
                vstd::arithmetic::div_mod::lemma_mod_add_multiples_vanish(own - rem, b);
                vstd::arithmetic::div_mod::lemma_small_mod((own - rem) as nat, b as nat);
                assert(own + m - rem == b + (own - rem));
            } else {
                vstd::arithmetic::div_mod::lemma_small_mod((own + m - rem) as nat, b as nat);
            }
        }
        let first = start + delta;
        if first < end {
            assert(first % b == a);
        } else {
            assert forall|i: int| start <= i < end implies #[trigger] (i % b) != a by {
                lemma_none_before(start as int, b, a, i);
            }
        }
    }
    start + delta < end
}

/// How far the first item of a stream is from `start`.
spec fn first_delta(start: int, m: int, stream: int) -> int {
    (stream + m - start % m) % m
}

proof fn lemma_first_of_stream(start: int, m: int, stream: int)
    requires
        0 <= start,
        0 <= stream < m,
    ensures
        0 <= first_delta(start, m, stream) < m,
        (start + first_delta(start, m, stream)) % m == stream,
{
    let rem = start % m;
    let delta = first_delta(start, m, stream);
    vstd::arithmetic::div_mod::lemma_mod_bound(start, m);
    vstd::arithmetic::div_mod::lemma_mod_bound(stream + m - rem, m);
    vstd::arithmetic::div_mod::lemma_fundamental_div_mod(start, m);
    let q = start / m;
    if stream >= rem {
        assert(delta == stream - rem) by {
            vstd::arithmetic::div_mod::lemma_mod_add_multiples_vanish(stream - rem, m);
            vstd::arithmetic::div_mod::lemma_small_mod((stream - rem) as nat, m as nat);
            assert(stream + m - rem == m + (stream - rem));
        }
        assert(start + delta == m * q + stream);
    } else {
        assert(delta == stream + m - rem) by {
            vstd::arithmetic::div_mod::lemma_small_mod((stream + m - rem) as nat, m as nat);
        }
        assert(start + delta == m * (q + 1) + stream) by (nonlinear_arith)
            requires
                start == m * q + rem,
                delta == stream + m - rem,
        ;
    }
    let k = if stream >= rem {
        q
    } else {
        q + 1
    };
    assert(start + delta == m * k + stream);
    vstd::arithmetic::div_mod::lemma_mod_multiples_vanish(k, stream, m);
    vstd::arithmetic::div_mod::lemma_small_mod(stream as nat, m as nat);
}

proof fn lemma_none_before(start: int, m: int, stream: int, i: int)
    requires
        0 <= start <= i < start + first_delta(start, m, stream),
        0 <= stream < m,
    ensures
        i % m != stream,
{
    let delta = first_delta(start, m, stream);
    lemma_first_of_stream(start, m, stream);
    if i % m == stream {
        let first = start + delta;
        vstd::arithmetic::div_mod::lemma_fundamental_div_mod(i, m);
        vstd::arithmetic::div_mod::lemma_fundamental_div_mod(first, m);
        let (a, b) = (i / m, first / m);
        assert(first - i == m * (b - a)) by (nonlinear_arith)
            requires
                i == m * a + stream,
                first == m * b + stream,
        ;
        assert(0 < m * (b - a) < m);
        assert(false) by (nonlinear_arith)
            requires
                0 < m * (b - a) < m,
                0 < m,
        ;
    }
}

// ---------------------------------------------------------------------------
// Lists of numbers among the arguments.
// ---------------------------------------------------------------------------

/// Where the piece that starts at `i` ends.
pub open spec fn piece_end(s: Seq<char>, i: int) -> int
    decreases s.len() - i,
{
    if i < 0 || i >= s.len() {
        s.len() as int
    } else if s[i] == ',' {
        i
    } else {
        piece_end(s, i + 1)
    }
}

proof fn lemma_piece_end(s: Seq<char>, i: int)
    requires
        0 <= i <= s.len(),
    ensures
        i <= piece_end(s, i) <= s.len(),
    decreases s.len() - i,
{
    if i < s.len() && s[i] != ',' {
        lemma_piece_end(s, i + 1);
    }
}

/// The pieces between commas, from `i` on.
pub open spec fn pieces_from(s: Seq<char>, i: int) -> Seq<Seq<char>>
    decreases s.len() - i,
    when 0 <= i <= s.len()
    via pieces_decreases
{
    let end = piece_end(s, i);
    let piece = s.subrange(i, end);
    if end >= s.len() {
        seq![piece]
    } else {
        seq![piece] + pieces_from(s, end + 1)
    }
}

#[via_fn]
proof fn pieces_decreases(s: Seq<char>, i: int) {
    lemma_piece_end(s, i);
}

/// The pieces of a text between commas.
pub open spec fn pieces(s: Seq<char>) -> Seq<Seq<char>> {
    pieces_from(s, 0)
}

/// The contents of some lists of characters.
pub open spec fn contents(v: Seq<Vec<char>>) -> Seq<Seq<char>> {
    v.map_values(|p: Vec<char>| p@)
}

/// Splits a text at its commas.
pub fn split_commas(s: &Vec<char>) -> (r: Vec<Vec<char>>)
    ensures
        contents(r@) == pieces(s@),
{
    let size: usize = s.len();
    let mut out: Vec<Vec<char>> = Vec::new();
    let mut piece: Vec<char> = Vec::new();
    let ghost mut start: int = 0;
    let mut i: usize = 0;
    assert(contents(out@) + pieces_from(s@, 0) =~= pieces(s@));
    while i < size
        invariant
            size == s@.len(),
            0 <= start <= i <= size,
            piece@ == s@.subrange(start, i as int),
            piece_end(s@, start) == piece_end(s@, i as int),
            contents(out@) + pieces_from(s@, start) == pieces(s@),
        decreases size - i,
    {
        if s[i] == ',' {
            let ghost before = contents(out@);
            let ghost done = piece@;
            out.push(piece);
            piece = Vec::new();
            proof {
                assert(contents(out@) =~= before.push(done));
                assert(contents(out@) + pieces_from(s@, i + 1) =~= before + (seq![done]
                    + pieces_from(s@, i + 1)));
                start = i + 1;
            }
        } else {
            piece.push(s[i]);
        }
        i = i + 1;
        assert(piece@ =~= s@.subrange(start, i as int));
    }
    let ghost before = contents(out@);
    let ghost done = piece@;
    out.push(piece);
    assert(contents(out@) =~= before + seq![done]);
    out
}

/// The number that a piece stands for, as a list of one, or an empty list.
pub open spec fn piece_number(piece: Seq<char>, max: nat) -> Seq<u64> {
    match text::parsed_number(text::trimmed(piece), 10, max) {
        Ok(n) => seq![n as u64],
        Err(_) => Seq::empty(),
    }
}

/// The numbers among the first `n` pieces; what is no number is passed over.
pub open spec fn numbers_among(parts: Seq<Seq<char>>, max: nat, n: int) -> Seq<u64>
    decreases n,
{
    if n <= 0 || n > parts.len() {
        Seq::empty()
    } else {
        numbers_among(parts, max, n - 1) + piece_number(parts[n - 1], max)
    }
}

/// The first place of a flag among the arguments.
pub open spec fn flag_place(args: Seq<Seq<char>>, flag: Seq<char>, i: int) -> Option<int>
    decreases args.len() - i,
{
    if i < 0 || i >= args.len() {
        None
    } else if args[i] == flag {
        Some(i)
    } else {
        flag_place(args, flag, i + 1)
    }
}

/// The text behind a flag.
pub open spec fn flag_value(args: Seq<Seq<char>>, flag: Seq<char>) -> Option<Seq<char>> {
    match flag_place(args, flag, 0) {
        Some(i) if i + 1 < args.len() => Some(args[i + 1]),
        _ => None,
    }
}

/// The numbers behind a flag, or else the default.
pub open spec fn number_list(
    args: Seq<Seq<char>>,
    flag: Seq<char>,
    default: Seq<u64>,
    max: nat,
) -> Seq<u64> {
    match flag_value(args, flag) {
        None => default,
        Some(v) => {
            let out = numbers_among(pieces(v), max, pieces(v).len() as int);
            if out.len() == 0 {
                default
            } else {
                out
            }
        },
    }
}

/// Finds the text behind a flag.
pub fn find_flag_value(args: &Vec<String>, flag: &str) -> (r: Option<Vec<char>>)
    ensures
        match flag_value(node::texts(args@), flag@) {
            None => r is None,
            Some(v) => r is Some && r->Some_0@ == v,
        },
{
    let mut i: usize = 0;
    while i < args.len()
        invariant
            i <= args@.len(),
            flag_place(node::texts(args@), flag@, 0) == flag_place(node::texts(args@), flag@, i as int),
        decreases args@.len() - i,
    {
        assert(node::texts(args@)[i as int] == args@[i as int]@);
        if text_is(args[i].as_str(), flag) {
            if i + 1 < args.len() {
                assert(node::texts(args@)[i + 1] == args@[i + 1]@);
                return Some(chars_of(args[i + 1].as_str()));
            }
            return None;
        }
        i = i + 1;
    }
    None
}

/// The numbers behind a flag, or else the default. Numbers above `max` are passed
/// over.
pub fn parse_list(args: &Vec<String>, flag: &str, default: Vec<u64>, max: u64) -> (r: Vec<u64>)
    ensures
        r@ == number_list(node::texts(args@), flag@, default@, max as nat),
{
    match find_flag_value(args, flag) {
        None => default,
        Some(v) => {
            let parts: Vec<Vec<char>> = split_commas(&v);
            let ghost all = contents(parts@);
            let mut out: Vec<u64> = Vec::new();
            let mut i: usize = 0;
            while i < parts.len()
                invariant
                    i <= parts@.len(),
                    all == contents(parts@),
                    out@ == numbers_among(all, max as nat, i as int),
                decreases parts@.len() - i,
            {
                let piece: Vec<char> = trim(&parts[i]);
                assert(all[i as int] == parts@[i as int]@);
                let ghost before = out@;
                if let Ok(n) = parse_number(&piece, 10, max) {
                    out.push(n);
                }
                i = i + 1;
                assert(out@ =~= before + piece_number(all[i - 1], max as nat));
            }
            if out.len() == 0 {
                default
            } else {
                out
            }
        },
    }
}

/// The work is dealt out evenly: an earlier stream has as much as a later one, or one more.
pub proof fn law_streams_are_even(total: int, streams: int, a: int, b: int)
    requires
        0 <= total,
        0 <= a < b < streams,
    ensures
        dealt(total, streams, a) == dealt(total, streams, b) || dealt(total, streams, a) == dealt(
            total,
            streams,
            b,
        ) + 1,
{
}

proof fn lemma_piece_ends_at(s: Seq<char>, i: int, end: int)
    requires
        0 <= i <= end <= s.len(),
        forall|k: int| i <= k < end ==> s[k] != ',',
        end == s.len() || s[end] == ',',
    ensures
        piece_end(s, i) == end,
    decreases end - i,
{
    if i < end {
        lemma_piece_ends_at(s, i + 1, end);
    }
}

proof fn lemma_pieces_shift(head: Seq<char>, rest: Seq<char>, i: int)
    requires
        0 <= i <= rest.len(),
    ensures
        pieces_from(head + rest, head.len() + i) == pieces_from(rest, i),
    decreases rest.len() - i,
{
    let s = head + rest;
    let n = head.len() as int;
    lemma_piece_end_shift(head, rest, i);
    let end = piece_end(rest, i);
    assert(s.subrange(n + i, n + end) =~= rest.subrange(i, end));
    if end < rest.len() {
        lemma_pieces_shift(head, rest, end + 1);
        assert(n + end + 1 == n + (end + 1));
    }
}

proof fn lemma_piece_end_shift(head: Seq<char>, rest: Seq<char>, i: int)
    requires
        0 <= i <= rest.len(),
    ensures
        piece_end(head + rest, head.len() + i) == head.len() + piece_end(rest, i),
        i <= piece_end(rest, i) <= rest.len(),
    decreases rest.len() - i,
{
    let s = head + rest;
    if i < rest.len() {
        assert(s[head.len() + i] == rest[i]);
        if rest[i] != ',' {
            lemma_piece_end_shift(head, rest, i + 1);
            assert(head.len() + i + 1 == head.len() + (i + 1));
        }
    }
}

/// A list is what stands between its commas: a text without any is a list of one, and what
/// stands before the first comma comes before the list behind it.
pub proof fn law_list_is_split_at_commas(first: Seq<char>, rest: Seq<char>)
    requires
        !first.contains(','),
    ensures
        pieces(first) == seq![first],
        pieces(first + seq![','] + rest) == seq![first] + pieces(rest),
{
    assert forall|k: int| 0 <= k < first.len() implies first[k] != ',' by {
        assert(first.contains(first[k]));
    }
    lemma_piece_ends_at(first, 0, first.len() as int);
    assert(first.subrange(0, first.len() as int) =~= first);
    let s = first + seq![','] + rest;
    lemma_piece_ends_at(s, 0, first.len() as int);
    assert(s.subrange(0, first.len() as int) =~= first);
    let head = first + seq![','];
    lemma_pieces_shift(head, rest, 0);
}

/// The numbers of a list are those of its pieces in their order, without what is no number.
/// A flag that is not given, or has none, leaves the default.
pub proof fn law_numbers_of_a_list(
    args: Seq<Seq<char>>,
    flag: Seq<char>,
    default: Seq<u64>,
    max: nat,
    parts: Seq<Seq<char>>,
    piece: Seq<char>,
)
    requires
        max <= u64::MAX,
    ensures
        flag_value(args, flag) is None ==> number_list(args, flag, default, max) == default,
        numbers_among(Seq::empty(), max, 0) == Seq::<u64>::empty(),
        numbers_among(parts.push(piece), max, parts.len() as int + 1) == match text::parsed_number(
            text::trimmed(piece),
            10,
            max,
        ) {
            Ok(n) => numbers_among(parts, max, parts.len() as int).push(n as u64),
            Err(_) => numbers_among(parts, max, parts.len() as int),
        },
{
    lemma_numbers_prefix(parts, piece, max, parts.len() as int);
    let before = numbers_among(parts, max, parts.len() as int);
    match text::parsed_number(text::trimmed(piece), 10, max) {
        Ok(n) => {
            assert(before + seq![n as u64] =~= before.push(n as u64));
        },
        Err(_) => {
            assert(before + Seq::<u64>::empty() =~= before);
        },
    }
}

proof fn lemma_numbers_prefix(parts: Seq<Seq<char>>, piece: Seq<char>, max: nat, n: int)
    requires
        0 <= n <= parts.len(),
    ensures
        numbers_among(parts.push(piece), max, n) == numbers_among(parts, max, n),
    decreases n,
{
    if n > 0 {
        lemma_numbers_prefix(parts, piece, max, n - 1);
        assert(parts.push(piece)[n - 1] == parts[n - 1]);
    }
}

/// The shard of a number is what is left of its mixture by the number of shards.
pub proof fn law_shard_is_a_remainder(x: u64, salt: u64, shards: usize, bits: u32)
    requires
        shard_bits_ok(shards, bits),
        shards <= u32::MAX,
    ensures
        shard_for(x, salt, shards) == mixed(x ^ salt) % (shards as u64),
        shard_for(x, salt, shards) < shards,
{
    let m = mixed(x ^ salt);
    let n = shards as u64;
    lemma_shard_for(x, salt, shards);
    let k = (shards - 1) as u64;
    let mask = (shards - 1) as usize;
    vstd::bits::lemma_u64_pow2_no_overflow(bits as nat);
    assert(1 * vstd::arithmetic::power2::pow2(bits as nat) == vstd::arithmetic::power2::pow2(
        bits as nat,
    )) by (nonlinear_arith);
    vstd::bits::lemma_u64_shl_is_mul(1, bits as u64);
    assert(1u64 << bits == 1u64 << (bits as u64)) by (bit_vector);
    assert(n == vstd::arithmetic::power2::pow2(bits as nat));
    vstd::bits::lemma_u64_low_bits_mask_is_mod(m, bits as nat);
    assert(k == vstd::bits::low_bits_mask(bits as nat));
    assert(((m as usize) & mask) as u64 == m & k) by (bit_vector)
        requires
            k == mask as u64,
            k <= 0xffff_ffff,
    ;
}

/// Turning a number is undone by turning it the rest of the way.
pub proof fn law_turning_is_undone(x: u64, n: u32)
    requires
        0 < n < 64,
    ensures
        turned(turned(x, n), (64 - n) as u32) == x,
        turned(x, 0) == x,
{
    let m = (64 - n) as u32;
    let y = (x << n) | (x >> m);
    assert((y << m) | (y >> n) == x) by (bit_vector)
        requires
            y == (x << n) | (x >> m),
            0 < n < 64,
            m == 64 - n,
    ;
}

} // verus!
