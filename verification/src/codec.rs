//! Little-endian byte primitives and facts about concatenated encodings.

use vstd::prelude::*;
use vstd::bytes::*;
use vstd::slice::slice_subrange;

verus! {

/// `p` is a prefix of `s`.
pub open spec fn is_prefix(p: Seq<u8>, s: Seq<u8>) -> bool {
    p.len() <= s.len() && s.subrange(0, p.len() as int) == p
}

/// The concatenation of the encodings of the elements of `s`, in order.
pub open spec fn concat_map<T>(s: Seq<T>, f: spec_fn(T) -> Seq<u8>) -> Seq<u8>
    decreases s.len(),
{
    if s.len() == 0 {
        Seq::empty()
    } else {
        concat_map(s.drop_last(), f) + f(s.last())
    }
}

/// Little-endian encoding of a `u32`.
pub open spec fn le32(x: u32) -> Seq<u8> {
    spec_u32_to_le_bytes(x)
}

/// Little-endian encoding of a `u64`.
pub open spec fn le64(x: u64) -> Seq<u8> {
    spec_u64_to_le_bytes(x)
}

/// Little-endian encodings of a run of `u64`s.
pub open spec fn le64s(s: Seq<u64>) -> Seq<u8> {
    concat_map(s, |x: u64| le64(x))
}

/// Little-endian encodings of a run of `u32`s.
pub open spec fn le32s(s: Seq<u32>) -> Seq<u8> {
    concat_map(s, |x: u32| le32(x))
}

pub proof fn lemma_le_facts()
    ensures
        forall|x: u32| #[trigger] le32(x).len() == 4,
        forall|x: u64| #[trigger] le64(x).len() == 8,
        forall|x: u32, y: u32| #[trigger] le32(x) == #[trigger] le32(y) ==> x == y,
        forall|x: u64, y: u64| #[trigger] le64(x) == #[trigger] le64(y) ==> x == y,
        forall|x: u32| #[trigger] spec_u32_from_le_bytes(le32(x)) == x,
        forall|x: u64| #[trigger] spec_u64_from_le_bytes(le64(x)) == x,
        forall|s: Seq<u8>| s.len() == 4 ==> #[trigger] le32(spec_u32_from_le_bytes(s)) == s,
        forall|s: Seq<u8>| s.len() == 8 ==> #[trigger] le64(spec_u64_from_le_bytes(s)) == s,
{
    lemma_auto_spec_u32_to_from_le_bytes();
    lemma_auto_spec_u64_to_from_le_bytes();
    assert forall|x: u32| #[trigger] le32(x).len() == 4 by {
        assert(spec_u32_to_le_bytes(x).len() == 4);
    }
    assert forall|x: u32| #[trigger] spec_u32_from_le_bytes(le32(x)) == x by {
        assert(spec_u32_to_le_bytes(x).len() == 4);
    }
    assert forall|x: u64| #[trigger] spec_u64_from_le_bytes(le64(x)) == x by {
        assert(spec_u64_to_le_bytes(x).len() == 8);
    }
    assert forall|s: Seq<u8>| s.len() == 4 implies #[trigger] le32(spec_u32_from_le_bytes(s)) == s by {
        assert(spec_u32_to_le_bytes(spec_u32_from_le_bytes(s)) == s);
    }
    assert forall|s: Seq<u8>| s.len() == 8 implies #[trigger] le64(spec_u64_from_le_bytes(s)) == s by {
        assert(spec_u64_to_le_bytes(spec_u64_from_le_bytes(s)) == s);
    }
    assert forall|x: u32, y: u32| #[trigger] le32(x) == #[trigger] le32(y) implies x == y by {
        assert(spec_u32_to_le_bytes(x).len() == 4);
        assert(spec_u32_to_le_bytes(y).len() == 4);
        assert(spec_u32_from_le_bytes(spec_u32_to_le_bytes(x)) == x);
        assert(spec_u32_from_le_bytes(spec_u32_to_le_bytes(y)) == y);
    }
    assert forall|x: u64, y: u64| #[trigger] le64(x) == #[trigger] le64(y) implies x == y by {
        assert(spec_u64_from_le_bytes(spec_u64_to_le_bytes(x)) == x);
        assert(spec_u64_from_le_bytes(spec_u64_to_le_bytes(y)) == y);
    }
}

pub proof fn lemma_concat_push<T>(s: Seq<T>, x: T, f: spec_fn(T) -> Seq<u8>)
    ensures
        concat_map(s.push(x), f) == concat_map(s, f) + f(x),
{
    assert(s.push(x).drop_last() =~= s);
}

pub proof fn lemma_concat_append<T>(a: Seq<T>, b: Seq<T>, f: spec_fn(T) -> Seq<u8>)
    ensures
        concat_map(a + b, f) == concat_map(a, f) + concat_map(b, f),
    decreases b.len(),
{
    if b.len() == 0 {
        assert(a + b =~= a);
        assert(concat_map(a, f) + concat_map(b, f) =~= concat_map(a, f));
    } else {
        let b0 = b.drop_last();
        lemma_concat_append(a, b0, f);
        assert((a + b).drop_last() =~= a + b0);
        assert((a + b).last() == b.last());
        assert(concat_map(a, f) + concat_map(b, f) =~= concat_map(a, f) + concat_map(b0, f) + f(
            b.last(),
        ));
    }
}

pub proof fn lemma_concat_len<T>(s: Seq<T>, f: spec_fn(T) -> Seq<u8>, w: nat)
    requires
        forall|x: T| #[trigger] f(x).len() == w,
    ensures
        concat_map(s, f).len() == w * s.len(),
    decreases s.len(),
{
    if s.len() > 0 {
        lemma_concat_len(s.drop_last(), f, w);
        assert(w * s.len() == w * (s.len() - 1) + w) by (nonlinear_arith)
            requires
                s.len() > 0,
        ;
    }
}

/// Splitting the encoding of `s` at element `i`: the encoding of the first
/// `i` elements, then that of element `i`, then the rest.
pub proof fn lemma_concat_split<T>(s: Seq<T>, i: int, f: spec_fn(T) -> Seq<u8>)
    requires
        0 <= i < s.len(),
    ensures
        concat_map(s, f) == concat_map(s.take(i), f) + f(s[i]) + concat_map(s.skip(i + 1), f),
{
    assert(s =~= s.take(i).push(s[i]) + s.skip(i + 1));
    lemma_concat_append(s.take(i).push(s[i]), s.skip(i + 1), f);
    lemma_concat_push(s.take(i), s[i], f);
}

pub proof fn lemma_le64s_len(s: Seq<u64>)
    ensures
        le64s(s).len() == 8 * s.len(),
{
    lemma_le_facts();
    lemma_concat_len(s, |x: u64| le64(x), 8);
}

pub proof fn lemma_le32s_len(s: Seq<u32>)
    ensures
        le32s(s).len() == 4 * s.len(),
{
    lemma_le_facts();
    lemma_concat_len(s, |x: u32| le32(x), 4);
}

/// Append the little-endian encoding of `x`.
pub fn write_u32(out: &mut Vec<u8>, x: u32)
    ensures
        final(out)@ == old(out)@ + le32(x),
{
    let mut b = u32_to_le_bytes(x);
    out.append(&mut b);
}

/// Append the little-endian encoding of `x`.
pub fn write_u64(out: &mut Vec<u8>, x: u64)
    ensures
        final(out)@ == old(out)@ + le64(x),
{
    let mut b = u64_to_le_bytes(x);
    out.append(&mut b);
}

/// Append a single byte.
pub fn write_u8(out: &mut Vec<u8>, x: u8)
    ensures
        final(out)@ == old(out)@.push(x),
{
    out.push(x);
}

/// Append the little-endian encodings of `xs`.
pub fn write_u64s(out: &mut Vec<u8>, xs: &[u64])
    ensures
        final(out)@ == old(out)@ + le64s(xs@),
{
    let mut i: usize = 0;
    while i < xs.len()
        invariant
            i <= xs@.len(),
            out@ == old(out)@ + le64s(xs@.take(i as int)),
        decreases xs@.len() - i,
    {
        proof {
            assert(xs@.take(i as int + 1) =~= xs@.take(i as int).push(xs@[i as int]));
            lemma_concat_push(xs@.take(i as int), xs@[i as int], |x: u64| le64(x));
        }
        write_u64(out, xs[i]);
        i = i + 1;
    }
    proof {
        assert(xs@.take(xs@.len() as int) =~= xs@);
    }
}

/// Append the little-endian encodings of `xs`.
pub fn write_u32s(out: &mut Vec<u8>, xs: &[u32])
    ensures
        final(out)@ == old(out)@ + le32s(xs@),
{
    let mut i: usize = 0;
    while i < xs.len()
        invariant
            i <= xs@.len(),
            out@ == old(out)@ + le32s(xs@.take(i as int)),
        decreases xs@.len() - i,
    {
        proof {
            assert(xs@.take(i as int + 1) =~= xs@.take(i as int).push(xs@[i as int]));
            lemma_concat_push(xs@.take(i as int), xs@[i as int], |x: u32| le32(x));
        }
        write_u32(out, xs[i]);
        i = i + 1;
    }
    proof {
        assert(xs@.take(xs@.len() as int) =~= xs@);
    }
}

/// Read the byte at `pos`, if there is one.
pub fn read_u8(bytes: &[u8], pos: usize) -> (r: Option<u8>)
    ensures
        r is Some <==> pos < bytes@.len(),
        r matches Some(x) ==> x == bytes@[pos as int],
{
    if pos < bytes.len() {
        Some(bytes[pos])
    } else {
        None
    }
}

/// Read a little-endian `u32` at `pos`, if four bytes remain.
pub fn read_u32(bytes: &[u8], pos: usize) -> (r: Option<u32>)
    ensures
        r is Some <==> pos + 4 <= bytes@.len(),
        r matches Some(x) ==> bytes@.subrange(pos as int, pos + 4) == le32(x),
{
    if bytes.len() >= 4 && pos <= bytes.len() - 4 {
        let s = slice_subrange(bytes, pos, pos + 4);
        let x = u32_from_le_bytes(s);
        proof {
            lemma_auto_spec_u32_to_from_le_bytes();
        }
        Some(x)
    } else {
        None
    }
}

/// Read a little-endian `u64` at `pos`, if eight bytes remain.
pub fn read_u64(bytes: &[u8], pos: usize) -> (r: Option<u64>)
    ensures
        r is Some <==> pos + 8 <= bytes@.len(),
        r matches Some(x) ==> bytes@.subrange(pos as int, pos + 8) == le64(x),
{
    if bytes.len() >= 8 && pos <= bytes.len() - 8 {
        let s = slice_subrange(bytes, pos, pos + 8);
        let x = u64_from_le_bytes(s);
        proof {
            lemma_auto_spec_u64_to_from_le_bytes();
        }
        Some(x)
    } else {
        None
    }
}

/// Read `count` little-endian `u64`s at `pos`, if enough bytes remain.
pub fn read_u64s(bytes: &[u8], pos: usize, count: usize) -> (r: Option<Vec<u64>>)
    ensures
        r is Some <==> pos + 8 * count <= bytes@.len(),
        r matches Some(v) ==> v@.len() == count && bytes@.subrange(pos as int, pos + 8 * count)
            == le64s(v@),
{
    if pos > bytes.len() || count > (bytes.len() - pos) / 8 {
        proof {
            if pos <= bytes@.len() {
                let rem = (bytes@.len() - pos) as int;
                assert(count * 8 > rem) by (nonlinear_arith)
                    requires
                        count > rem / 8,
                        rem >= 0,
                ;
            }
        }
        return None;
    }
    proof {
        let rem = (bytes@.len() - pos) as int;
        assert(count * 8 <= rem) by (nonlinear_arith)
            requires
                count <= rem / 8,
                rem >= 0,
        ;
    }
    let mut v: Vec<u64> = Vec::new();
    let blen = bytes.len();
    let mut i: usize = 0;
    let mut p = pos;
    while i < count
        invariant
            i <= count,
            blen == bytes@.len(),
            pos + 8 * count <= bytes@.len(),
            p == pos + 8 * i,
            v@.len() == i,
            bytes@.subrange(pos as int, p as int) == le64s(v@),
        decreases count - i,
    {
        let x = match read_u64(bytes, p) {
            Some(x) => x,
            None => {
                assert(false);
                0
            },
        };
        proof {
            lemma_concat_push(v@, x, |y: u64| le64(y));
            assert(bytes@.subrange(pos as int, p + 8) =~= bytes@.subrange(pos as int, p as int)
                + bytes@.subrange(p as int, p + 8));
        }
        v.push(x);
        p = p + 8;
        i = i + 1;
    }
    Some(v)
}

/// Read `count` little-endian `u32`s at `pos`, if enough bytes remain.
pub fn read_u32s(bytes: &[u8], pos: usize, count: usize) -> (r: Option<Vec<u32>>)
    ensures
        r is Some <==> pos + 4 * count <= bytes@.len(),
        r matches Some(v) ==> v@.len() == count && bytes@.subrange(pos as int, pos + 4 * count)
            == le32s(v@),
{
    if pos > bytes.len() || count > (bytes.len() - pos) / 4 {
        proof {
            if pos <= bytes@.len() {
                let rem = (bytes@.len() - pos) as int;
                assert(count * 4 > rem) by (nonlinear_arith)
                    requires
                        count > rem / 4,
                        rem >= 0,
                ;
            }
        }
        return None;
    }
    proof {
        let rem = (bytes@.len() - pos) as int;
        assert(count * 4 <= rem) by (nonlinear_arith)
            requires
                count <= rem / 4,
                rem >= 0,
        ;
    }
    let mut v: Vec<u32> = Vec::new();
    let blen = bytes.len();
    let mut i: usize = 0;
    let mut p = pos;
    while i < count
        invariant
            i <= count,
            blen == bytes@.len(),
            pos + 4 * count <= bytes@.len(),
            p == pos + 4 * i,
            v@.len() == i,
            bytes@.subrange(pos as int, p as int) == le32s(v@),
        decreases count - i,
    {
        let x = match read_u32(bytes, p) {
            Some(x) => x,
            None => {
                assert(false);
                0
            },
        };
        proof {
            lemma_concat_push(v@, x, |y: u32| le32(y));
            assert(bytes@.subrange(pos as int, p + 4) =~= bytes@.subrange(pos as int, p as int)
                + bytes@.subrange(p as int, p + 4));
        }
        v.push(x);
        p = p + 4;
        i = i + 1;
    }
    Some(v)
}

/// A concatenation is a prefix of `s` exactly when its first part is and
/// its second part follows it in `s`.
pub proof fn lemma_prefix_concat(a: Seq<u8>, b: Seq<u8>, s: Seq<u8>)
    ensures
        is_prefix(a + b, s) <==> (is_prefix(a, s) && a.len() + b.len() <= s.len() && s.subrange(
            a.len() as int,
            (a.len() + b.len()) as int,
        ) == b),
{
    if is_prefix(a + b, s) {
        assert(s.subrange(0, a.len() as int) =~= (a + b).subrange(0, a.len() as int));
        assert((a + b).subrange(0, a.len() as int) =~= a);
        assert(s.subrange(a.len() as int, (a.len() + b.len()) as int) =~= (a + b).subrange(
            a.len() as int,
            (a.len() + b.len()) as int,
        ));
        assert((a + b).subrange(a.len() as int, (a.len() + b.len()) as int) =~= b);
    }
    if is_prefix(a, s) && a.len() + b.len() <= s.len() && s.subrange(
        a.len() as int,
        (a.len() + b.len()) as int,
    ) == b {
        assert(s.subrange(0, (a + b).len() as int) =~= s.subrange(0, a.len() as int) + s.subrange(
            a.len() as int,
            (a.len() + b.len()) as int,
        ));
    }
}

/// Two runs of `u64`s with the same encoding are equal.
pub proof fn lemma_le64s_injective(a: Seq<u64>, b: Seq<u64>)
    requires
        le64s(a) == le64s(b),
    ensures
        a == b,
    decreases a.len(),
{
    lemma_le64s_len(a);
    lemma_le64s_len(b);
    lemma_le_facts();
    if a.len() > 0 {
        let fa = |x: u64| le64(x);
        assert(le64s(a) == le64s(a.drop_last()) + le64(a.last()));
        assert(le64s(b) == le64s(b.drop_last()) + le64(b.last()));
        lemma_le64s_len(a.drop_last());
        lemma_le64s_len(b.drop_last());
        let n = le64s(a).len();
        assert(le64s(a.drop_last()) =~= le64s(a).subrange(0, n - 8));
        assert(le64s(b.drop_last()) =~= le64s(b).subrange(0, n - 8));
        assert(le64(a.last()) =~= le64s(a).subrange(n - 8, n as int));
        assert(le64(b.last()) =~= le64s(b).subrange(n - 8, n as int));
        lemma_le64s_injective(a.drop_last(), b.drop_last());
        assert(a =~= a.drop_last().push(a.last()));
        assert(b =~= b.drop_last().push(b.last()));
    }
}

/// Two runs of `u32`s with the same encoding are equal.
pub proof fn lemma_le32s_injective(a: Seq<u32>, b: Seq<u32>)
    requires
        le32s(a) == le32s(b),
    ensures
        a == b,
    decreases a.len(),
{
    lemma_le32s_len(a);
    lemma_le32s_len(b);
    lemma_le_facts();
    if a.len() > 0 {
        assert(le32s(a) == le32s(a.drop_last()) + le32(a.last()));
        assert(le32s(b) == le32s(b.drop_last()) + le32(b.last()));
        lemma_le32s_len(a.drop_last());
        lemma_le32s_len(b.drop_last());
        let n = le32s(a).len();
        assert(le32s(a.drop_last()) =~= le32s(a).subrange(0, n - 4));
        assert(le32s(b.drop_last()) =~= le32s(b).subrange(0, n - 4));
        assert(le32(a.last()) =~= le32s(a).subrange(n - 4, n as int));
        assert(le32(b.last()) =~= le32s(b).subrange(n - 4, n as int));
        lemma_le32s_injective(a.drop_last(), b.drop_last());
        assert(a =~= a.drop_last().push(a.last()));
        assert(b =~= b.drop_last().push(b.last()));
    }
}

/// `s` occurs in `b` at position `pos`.
pub open spec fn at(b: Seq<u8>, pos: int, s: Seq<u8>) -> bool {
    0 <= pos && pos + s.len() <= b.len() && b.subrange(pos, pos + s.len()) == s
}

/// A run occurs at `pos` exactly when its first part does and its second
/// part follows.
pub proof fn lemma_at_concat(b: Seq<u8>, pos: int, x: Seq<u8>, y: Seq<u8>)
    ensures
        at(b, pos, x + y) <==> (at(b, pos, x) && at(b, pos + x.len(), y)),
{
    if at(b, pos, x + y) {
        assert(b.subrange(pos, pos + x.len()) =~= (x + y).subrange(0, x.len() as int));
        assert((x + y).subrange(0, x.len() as int) =~= x);
        assert(b.subrange(pos + x.len(), pos + x.len() + y.len()) =~= (x + y).subrange(
            x.len() as int,
            (x.len() + y.len()) as int,
        ));
        assert((x + y).subrange(x.len() as int, (x.len() + y.len()) as int) =~= y);
    }
    if at(b, pos, x) && at(b, pos + x.len(), y) {
        assert(b.subrange(pos, pos + (x + y).len()) =~= b.subrange(pos, pos + x.len()) + b.subrange(
            pos + x.len(),
            pos + x.len() + y.len(),
        ));
    }
}

/// A prefix is a run at position 0.
pub proof fn lemma_prefix_at(p: Seq<u8>, b: Seq<u8>)
    ensures
        is_prefix(p, b) <==> at(b, 0, p),
{
}

/// Within a concatenation occurring at `pos`, the element `k` occurs right
/// after the encoding of the elements before it.
pub proof fn lemma_at_element<T>(b: Seq<u8>, pos: int, s: Seq<T>, k: int, f: spec_fn(T) -> Seq<u8>)
    requires
        0 <= k < s.len(),
        at(b, pos, concat_map(s, f)),
    ensures
        at(b, pos + concat_map(s.take(k), f).len(), f(s[k])),
{
    lemma_concat_split(s, k, f);
    let a = concat_map(s.take(k), f);
    let x = f(s[k]);
    let c = concat_map(s.skip(k + 1), f);
    lemma_at_concat(b, pos, a + x, c);
    lemma_at_concat(b, pos, a, x);
}

/// Appending an element whose encoding follows the encoding of a run keeps
/// the run in place.
pub proof fn lemma_at_push<T>(b: Seq<u8>, pos: int, s: Seq<T>, x: T, f: spec_fn(T) -> Seq<u8>)
    requires
        at(b, pos, concat_map(s, f)),
        at(b, pos + concat_map(s, f).len(), f(x)),
    ensures
        at(b, pos, concat_map(s.push(x), f)),
        concat_map(s.push(x), f).len() == concat_map(s, f).len() + f(x).len(),
{
    lemma_concat_push(s, x, f);
    lemma_at_concat(b, pos, concat_map(s, f), f(x));
}

/// The encoding of a run whose elements all encode to `w` bytes has
/// `w` bytes per element.
pub proof fn lemma_concat_len_on<T>(s: Seq<T>, f: spec_fn(T) -> Seq<u8>, w: nat)
    requires
        forall|i: int| 0 <= i < s.len() ==> (#[trigger] f(s[i])).len() == w,
    ensures
        concat_map(s, f).len() == s.len() * w,
    decreases s.len(),
{
    if s.len() > 0 {
        let init = s.drop_last();
        assert forall|i: int| 0 <= i < init.len() implies (#[trigger] f(init[i])).len() == w by {
            assert(init[i] == s[i]);
        }
        lemma_concat_len_on(init, f, w);
        assert(f(s[s.len() - 1]).len() == w);
        assert(s.len() * w == (s.len() - 1) * w + w) by (nonlinear_arith)
            requires
                s.len() > 0,
        ;
    }
}

} // verus!
