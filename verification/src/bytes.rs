//! Fixed-width integers, fixed-size byte arrays and byte strings.
use vstd::prelude::*;

verus! {

/// The array whose bytes are `s`.
pub open spec fn arr<const N: usize>(s: Seq<u8>) -> [u8; N] {
    choose|a: [u8; N]| a@ == s
}

/// An array is determined by its bytes.
pub broadcast proof fn lemma_arr_of_view<const N: usize>(a: [u8; N])
    ensures
        #[trigger] arr::<N>(a@) == a,
{
    let b = arr::<N>(a@);
    assert(a@ == a@);
    assert(b@ == a@);
    lemma_array_eq(a, b);
}

/// Two arrays with the same bytes are equal.
pub proof fn lemma_array_eq<const N: usize>(a: [u8; N], b: [u8; N])
    requires
        a@ == b@,
    ensures
        a == b,
{
    assert forall|i: int| 0 <= i < N implies a[i] == b[i] by {
        assert(a@[i] == b@[i]);
    }
    assert(a =~= b);
}

proof fn lemma_arr_prefix<const N: usize>(s: Seq<u8>, n: nat) -> (a: [u8; N])
    requires
        s.len() == N,
        n <= N,
    ensures
        forall|i: int| 0 <= i < n ==> a@[i] == s[i],
    decreases n,
{
    if n == 0 {
        vstd::array::spec_array_fill_for_copy_type::<u8, N>(0u8)
    } else {
        let b = lemma_arr_prefix::<N>(s, (n - 1) as nat);
        let c = vstd::array::spec_array_update(b, n - 1, s[n - 1]);
        assert(c@ == b@.update(n - 1, s[n - 1]));
        c
    }
}

/// Every byte string of length `N` is the content of an array.
pub broadcast proof fn lemma_arr_view<const N: usize>(s: Seq<u8>)
    requires
        s.len() == N,
    ensures
        (#[trigger] arr::<N>(s))@ == s,
{
    let a = lemma_arr_prefix::<N>(s, N as nat);
    assert(a@ =~= s);
}

/// Whether two byte strings are the same.
pub fn same_bytes(a: &[u8], b: &[u8]) -> (r: bool)
    ensures
        r == (a@ == b@),
{
    if a.len() != b.len() {
        return false;
    }
    let mut i: usize = 0;
    while i < a.len()
        invariant
            i <= a@.len(),
            a@.len() == b@.len(),
            forall|j: int| 0 <= j < i ==> a@[j] == b@[j],
        decreases a@.len() - i,
    {
        if a[i] != b[i] {
            return false;
        }
        i = i + 1;
    }
    assert(a@ =~= b@);
    true
}

/// Whether two arrays are equal.
pub fn same_array<const N: usize>(a: &[u8; N], b: &[u8; N]) -> (r: bool)
    ensures
        r == (*a == *b),
{
    proof {
        if a@ == b@ {
            lemma_array_eq(*a, *b);
        }
    }
    same_bytes(a, b)
}

/// Whether every byte of a digest is zero.
pub fn is_zero(digest: &[u8; 32]) -> (r: bool)
    ensures
        r == (*digest == arr::<32>(zeros(32))),
        r == (forall|i: int| 0 <= i < 32 ==> digest@[i] == 0),
{
    proof {
        lemma_arr_view::<32>(zeros(32));
    }
    let mut i: usize = 0;
    while i < 32
        invariant
            i <= 32,
            arr::<32>(zeros(32))@ == zeros(32),
            forall|j: int| 0 <= j < i ==> digest@[j] == 0,
        decreases 32 - i,
    {
        if digest[i] != 0 {
            assert(digest@[i as int] != zeros(32)[i as int]);
            return false;
        }
        i = i + 1;
    }
    proof {
        assert(digest@ =~= zeros(32));
        lemma_array_eq(*digest, arr::<32>(zeros(32)));
    }
    true
}

/// `n` zero bytes.
pub open spec fn zeros(n: nat) -> Seq<u8> {
    Seq::new(n, |i: int| 0u8)
}

/// The digest of zero bytes.
pub open spec fn zero_digest() -> [u8; 32] {
    arr::<32>(zeros(32))
}

/// The digest made of zero bytes.
pub fn no_digest() -> (r: [u8; 32])
    ensures
        r == zero_digest(),
        r@ == zeros(32),
{
    let r: [u8; 32] = [0u8; 32];
    proof {
        assert(r@ =~= zeros(32));
        lemma_arr_of_view(r);
    }
    r
}

/// Copies a byte string into an array of the same length.
pub fn array_from<const N: usize>(b: &[u8]) -> (r: [u8; N])
    requires
        b@.len() == N,
    ensures
        r@ == b@,
        r == arr::<N>(b@),
{
    let mut r: [u8; N] = [0u8; N];
    let mut i: usize = 0;
    while i < N
        invariant
            i <= N,
            b@.len() == N,
            forall|j: int| 0 <= j < i ==> r@[j] == b@[j],
        decreases N - i,
    {
        r[i] = b[i];
        i = i + 1;
    }
    proof {
        assert(r@ =~= b@);
        lemma_arr_of_view(r);
    }
    r
}

/// Copies a vector of plain values.
pub fn copy_vec<T: Copy>(v: &Vec<T>) -> (r: Vec<T>)
    ensures
        r@ == v@,
{
    copy_slice(v.as_slice())
}

/// Copies a slice of plain values.
pub fn copy_slice<T: Copy>(v: &[T]) -> (r: Vec<T>)
    ensures
        r@ == v@,
{
    let mut r: Vec<T> = Vec::with_capacity(v.len());
    let mut i: usize = 0;
    while i < v.len()
        invariant
            i <= v@.len(),
            r@ == v@.subrange(0, i as int),
        decreases v@.len() - i,
    {
        r.push(v[i]);
        i = i + 1;
        assert(v@.subrange(0, i as int) =~= v@.subrange(0, i - 1).push(v@[i - 1]));
    }
    assert(v@.subrange(0, i as int) =~= v@);
    r
}

// ---------------------------------------------------------------------------
// Little-endian integers.
// ---------------------------------------------------------------------------

pub open spec fn le16(x: u16) -> Seq<u8> {
    seq![(x % 256) as u8, (x / 256 % 256) as u8]
}

pub open spec fn le32(x: u32) -> Seq<u8> {
    seq![
        (x % 256) as u8,
        (x / 256 % 256) as u8,
        (x / 65536 % 256) as u8,
        (x / 16777216 % 256) as u8,
    ]
}

pub open spec fn le64(x: u64) -> Seq<u8> {
    seq![
        (x % 256) as u8,
        (x / 256 % 256) as u8,
        (x / 65536 % 256) as u8,
        (x / 16777216 % 256) as u8,
        (x / 4294967296 % 256) as u8,
        (x / 1099511627776 % 256) as u8,
        (x / 281474976710656 % 256) as u8,
        (x / 72057594037927936 % 256) as u8,
    ]
}

/// The number that two little-endian bytes stand for.
pub open spec fn from_le16(s: Seq<u8>) -> u16 {
    (s[0] + 256 * s[1]) as u16
}

/// The number that four little-endian bytes stand for.
pub open spec fn from_le32(s: Seq<u8>) -> u32 {
    (s[0] + 256 * s[1] + 65536 * s[2] + 16777216 * s[3]) as u32
}

/// The number that eight little-endian bytes stand for.
pub open spec fn from_le64(s: Seq<u8>) -> u64 {
    (s[0] + 256 * s[1] + 65536 * s[2] + 16777216 * s[3] + 4294967296 * s[4] + 1099511627776 * s[5]
        + 281474976710656 * s[6] + 72057594037927936 * s[7]) as u64
}

pub broadcast proof fn lemma_le16(x: u16)
    ensures
        #[trigger] le16(x).len() == 2,
        from_le16(le16(x)) == x,
{
}

pub broadcast proof fn lemma_le32(x: u32)
    ensures
        #[trigger] le32(x).len() == 4,
        from_le32(le32(x)) == x,
{
    let q1 = x / 256;
    let q2 = x / 65536;
    let q3 = x / 16777216;
    assert(q2 == q1 / 256);
    assert(q3 == q2 / 256);
}

/// Dividing by a power of 256 is dividing by 256 that many times.
proof fn lemma_le64_digits(x: u64)
    ensures
        x / 65536 == (x / 256) / 256,
        x / 16777216 == (x / 65536) / 256,
        x / 4294967296 == (x / 16777216) / 256,
        x / 1099511627776 == (x / 4294967296) / 256,
        x / 281474976710656 == (x / 1099511627776) / 256,
        x / 72057594037927936 == (x / 281474976710656) / 256,
{
}

pub broadcast proof fn lemma_le64(x: u64)
    ensures
        #[trigger] le64(x).len() == 8,
        from_le64(le64(x)) == x,
{
    lemma_le64_digits(x);
}

pub broadcast proof fn lemma_from_le16(s: Seq<u8>)
    requires
        s.len() == 2,
    ensures
        le16(#[trigger] from_le16(s)) == s,
{
    let x = from_le16(s);
    assert(x == s[0] + 256 * s[1]);
    assert(le16(x) =~= s);
}

pub broadcast proof fn lemma_from_le32(s: Seq<u8>)
    requires
        s.len() == 4,
    ensures
        le32(#[trigger] from_le32(s)) == s,
{
    let x = from_le32(s);
    let y1 = s[1] + 256 * s[2] + 65536 * s[3];
    let y2 = s[2] + 256 * s[3];
    assert(x == s[0] + 256 * y1);
    assert(y1 == s[1] + 256 * y2);
    assert(x / 256 == y1);
    assert(x / 65536 == y2);
    assert(x / 16777216 == s[3]);
    assert(le32(x) =~= s);
}

pub broadcast proof fn lemma_from_le64(s: Seq<u8>)
    requires
        s.len() == 8,
    ensures
        le64(#[trigger] from_le64(s)) == s,
{
    let x = from_le64(s);
    let y7 = s[7] as int;
    let y6 = s[6] + 256 * y7;
    let y5 = s[5] + 256 * y6;
    let y4 = s[4] + 256 * y5;
    let y3 = s[3] + 256 * y4;
    let y2 = s[2] + 256 * y3;
    let y1 = s[1] + 256 * y2;
    assert(x == s[0] + 256 * y1);
    lemma_le64_digits(x);
    assert(x as int / 256 == y1);
    assert(y1 / 256 == y2);
    assert(y2 / 256 == y3);
    assert(y3 / 256 == y4);
    assert(y4 / 256 == y5);
    assert(y5 / 256 == y6);
    assert(y6 / 256 == y7);
    assert(le64(x) =~= s);
}

/// Reads two little-endian bytes.
pub fn get_u16(b: &[u8]) -> (r: u16)
    requires
        b@.len() == 2,
    ensures
        r == from_le16(b@),
{
    b[0] as u16 + 256 * (b[1] as u16)
}

/// Reads four little-endian bytes.
pub fn get_u32(b: &[u8]) -> (r: u32)
    requires
        b@.len() == 4,
    ensures
        r == from_le32(b@),
{
    b[0] as u32 + 256 * (b[1] as u32) + 65536 * (b[2] as u32) + 16777216 * (b[3] as u32)
}

/// Reads eight little-endian bytes.
pub fn get_u64(b: &[u8]) -> (r: u64)
    requires
        b@.len() == 8,
    ensures
        r == from_le64(b@),
{
    b[0] as u64 + 256 * (b[1] as u64) + 65536 * (b[2] as u64) + 16777216 * (b[3] as u64)
        + 4294967296 * (b[4] as u64) + 1099511627776 * (b[5] as u64) + 281474976710656 * (
    b[6] as u64) + 72057594037927936 * (b[7] as u64)
}

/// Appends one byte.
pub fn put_u8(out: &mut Vec<u8>, value: u8)
    ensures
        final(out)@ == old(out)@ + seq![value],
{
    out.push(value);
    assert(out@ =~= old(out)@ + seq![value]);
}

/// Appends a `u16`, least significant byte first.
pub fn put_u16(out: &mut Vec<u8>, value: u16)
    ensures
        final(out)@ == old(out)@ + le16(value),
{
    out.push((value % 256) as u8);
    out.push((value / 256 % 256) as u8);
    assert(out@ =~= old(out)@ + le16(value));
}

/// Appends a `u32`, least significant byte first.
pub fn put_u32(out: &mut Vec<u8>, value: u32)
    ensures
        final(out)@ == old(out)@ + le32(value),
{
    out.push((value % 256) as u8);
    out.push((value / 256 % 256) as u8);
    out.push((value / 65536 % 256) as u8);
    out.push((value / 16777216 % 256) as u8);
    assert(out@ =~= old(out)@ + le32(value));
}

/// Appends a `u64`, least significant byte first.
pub fn put_u64(out: &mut Vec<u8>, value: u64)
    ensures
        final(out)@ == old(out)@ + le64(value),
{
    out.push((value % 256) as u8);
    out.push((value / 256 % 256) as u8);
    out.push((value / 65536 % 256) as u8);
    out.push((value / 16777216 % 256) as u8);
    out.push((value / 4294967296 % 256) as u8);
    out.push((value / 1099511627776 % 256) as u8);
    out.push((value / 281474976710656 % 256) as u8);
    out.push((value / 72057594037927936 % 256) as u8);
    assert(out@ =~= old(out)@ + le64(value));
}

/// Appends a byte string.
pub fn put_bytes(out: &mut Vec<u8>, value: &[u8])
    ensures
        final(out)@ == old(out)@ + value@,
{
    out.extend_from_slice(value);
    assert(out@ =~= old(out)@ + value@);
}

/// Appends a digest.
pub fn put_digest(out: &mut Vec<u8>, value: &[u8; 32])
    ensures
        final(out)@ == old(out)@ + value@,
{
    put_bytes(out, value);
}

// ---------------------------------------------------------------------------
// Big-endian integers.
// ---------------------------------------------------------------------------

pub open spec fn be16(x: u16) -> Seq<u8> {
    seq![(x / 256 % 256) as u8, (x % 256) as u8]
}

pub open spec fn be32(x: u32) -> Seq<u8> {
    seq![
        (x / 16777216 % 256) as u8,
        (x / 65536 % 256) as u8,
        (x / 256 % 256) as u8,
        (x % 256) as u8,
    ]
}

/// The number that two big-endian bytes stand for.
pub open spec fn from_be16(s: Seq<u8>) -> u16 {
    (256 * s[0] + s[1]) as u16
}

/// The number that four big-endian bytes stand for.
pub open spec fn from_be32(s: Seq<u8>) -> u32 {
    (16777216 * s[0] + 65536 * s[1] + 256 * s[2] + s[3]) as u32
}

/// The number that eight big-endian bytes stand for.
pub open spec fn from_be64(s: Seq<u8>) -> u64 {
    (72057594037927936 * s[0] + 281474976710656 * s[1] + 1099511627776 * s[2] + 4294967296 * s[3]
        + 16777216 * s[4] + 65536 * s[5] + 256 * s[6] + s[7]) as u64
}

pub broadcast proof fn lemma_be16(x: u16)
    ensures
        #[trigger] be16(x).len() == 2,
        from_be16(be16(x)) == x,
{
}

pub broadcast proof fn lemma_be32(x: u32)
    ensures
        #[trigger] be32(x).len() == 4,
        from_be32(be32(x)) == x,
{
    let q1 = x / 256;
    let q2 = x / 65536;
    let q3 = x / 16777216;
    assert(q2 == q1 / 256);
    assert(q3 == q2 / 256);
}

/// Reads the two big-endian bytes that `b` starts with.
pub fn be_u16(b: &[u8]) -> (r: u16)
    requires
        b@.len() >= 2,
    ensures
        r == from_be16(b@),
{
    256 * (b[0] as u16) + b[1] as u16
}

/// Reads the four big-endian bytes that `b` starts with.
pub fn be_u32(b: &[u8]) -> (r: u32)
    requires
        b@.len() >= 4,
    ensures
        r == from_be32(b@),
{
    16777216 * (b[0] as u32) + 65536 * (b[1] as u32) + 256 * (b[2] as u32) + b[3] as u32
}

/// Reads the eight big-endian bytes that `b` starts with.
pub fn be_u64(b: &[u8]) -> (r: u64)
    requires
        b@.len() >= 8,
    ensures
        r == from_be64(b@),
{
    72057594037927936 * (b[0] as u64) + 281474976710656 * (b[1] as u64) + 1099511627776 * (
    b[2] as u64) + 4294967296 * (b[3] as u64) + 16777216 * (b[4] as u64) + 65536 * (b[5] as u64)
        + 256 * (b[6] as u64) + b[7] as u64
}

/// Appends a `u16`, most significant byte first.
pub fn push_u16_be(out: &mut Vec<u8>, value: u16)
    ensures
        final(out)@ == old(out)@ + be16(value),
{
    out.push((value / 256 % 256) as u8);
    out.push((value % 256) as u8);
    assert(out@ =~= old(out)@ + be16(value));
}

/// Appends a `u32`, most significant byte first.
pub fn push_u32_be(out: &mut Vec<u8>, value: u32)
    ensures
        final(out)@ == old(out)@ + be32(value),
{
    out.push((value / 16777216 % 256) as u8);
    out.push((value / 65536 % 256) as u8);
    out.push((value / 256 % 256) as u8);
    out.push((value % 256) as u8);
    assert(out@ =~= old(out)@ + be32(value));
}

/// Concatenation is associative; used to bring concatenations into one form.
pub broadcast proof fn lemma_concat_assoc(a: Seq<u8>, b: Seq<u8>, c: Seq<u8>)
    ensures
        #[trigger] ((a + b) + c) == a + (b + c),
{
    assert((a + b) + c =~= a + (b + c));
}

pub broadcast proof fn lemma_concat_empty(a: Seq<u8>)
    ensures
        #[trigger] (a + Seq::<u8>::empty()) == a,
{
    assert(a + Seq::<u8>::empty() =~= a);
}

/// The byte strings of the elements of `s`, one after another.
pub open spec fn flat<T>(s: Seq<T>, f: spec_fn(T) -> Seq<u8>) -> Seq<u8>
    decreases s.len(),
{
    if s.len() == 0 {
        Seq::empty()
    } else {
        flat(s.drop_last(), f) + f(s.last())
    }
}

/// The byte strings of the first `i + 1` elements are those of the first `i`
/// followed by that of the element number `i`.
pub proof fn lemma_flat_step<T>(s: Seq<T>, f: spec_fn(T) -> Seq<u8>, i: int)
    requires
        0 <= i < s.len(),
    ensures
        flat(s.subrange(0, i + 1), f) == flat(s.subrange(0, i), f) + f(s[i]),
{
    let t = s.subrange(0, i + 1);
    assert(t.drop_last() =~= s.subrange(0, i));
    assert(t.last() == s[i]);
}

pub proof fn lemma_flat_ends<T>(s: Seq<T>, f: spec_fn(T) -> Seq<u8>)
    ensures
        flat(s.subrange(0, 0), f) == Seq::<u8>::empty(),
        s.subrange(0, s.len() as int) == s,
{
    assert(s.subrange(0, s.len() as int) =~= s);
}

/// The byte strings of a list are that of its first element followed by those
/// of the rest.
pub proof fn lemma_flat_first<T>(s: Seq<T>, f: spec_fn(T) -> Seq<u8>)
    requires
        s.len() > 0,
    ensures
        flat(s, f) == f(s[0]) + flat(s.subrange(1, s.len() as int), f),
    decreases s.len(),
{
    let rest = s.subrange(1, s.len() as int);
    if s.len() == 1 {
        assert(s.drop_last() =~= Seq::<T>::empty());
        assert(rest =~= Seq::<T>::empty());
        assert(flat(s, f) =~= f(s[0]) + flat(rest, f));
    } else {
        lemma_flat_first(s.drop_last(), f);
        assert(s.drop_last().subrange(1, s.len() - 1) =~= rest.drop_last());
        assert(rest.last() == s.last());
        assert(flat(s, f) =~= f(s[0]) + (flat(rest.drop_last(), f) + f(s.last())));
    }
}

} // verus!
