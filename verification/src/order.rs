//! The order of strings by code point, proved to be the byte order of their
//! UTF-8 encodings, and the search for a place in a sorted sequence.
use vstd::prelude::*;
use vstd::utf8::{
    encode_scalar, encode_utf8, has_width_1_encoding, has_width_2_encoding, has_width_3_encoding,
    has_width_4_encoding, last_continuation_byte, second_last_continuation_byte,
    third_last_continuation_byte,
};

verus! {

/// `a` comes strictly before `b`: at the first difference `a` has the smaller
/// character, or `a` is a proper prefix of `b`.
pub open spec fn seq_less(a: Seq<char>, b: Seq<char>) -> bool
    decreases a.len(),
{
    if b.len() == 0 {
        false
    } else if a.len() == 0 {
        true
    } else if (a[0] as u32) < (b[0] as u32) {
        true
    } else if a[0] == b[0] {
        seq_less(a.drop_first(), b.drop_first())
    } else {
        false
    }
}

/// Each element comes strictly before every later one.
pub open spec fn strictly_sorted(s: Seq<Seq<char>>) -> bool {
    forall|i: int, j: int| 0 <= i < j < s.len() ==> seq_less(#[trigger] s[i], #[trigger] s[j])
}

pub proof fn lemma_less_irreflexive(a: Seq<char>)
    ensures
        !seq_less(a, a),
    decreases a.len(),
{
    if a.len() > 0 {
        lemma_less_irreflexive(a.drop_first());
    }
}

pub proof fn lemma_less_transitive(a: Seq<char>, b: Seq<char>, c: Seq<char>)
    requires
        seq_less(a, b),
        seq_less(b, c),
    ensures
        seq_less(a, c),
    decreases a.len(),
{
    if a.len() > 0 && b.len() > 0 && c.len() > 0 && a[0] == b[0] && b[0] == c[0] {
        lemma_less_transitive(a.drop_first(), b.drop_first(), c.drop_first());
    }
}

pub proof fn lemma_less_total(a: Seq<char>, b: Seq<char>)
    ensures
        a == b || seq_less(a, b) || seq_less(b, a),
    decreases a.len(),
{
    if a.len() == 0 && b.len() == 0 {
        assert(a =~= b);
    } else if a.len() > 0 && b.len() > 0 && a[0] == b[0] {
        lemma_less_total(a.drop_first(), b.drop_first());
        if a.drop_first() == b.drop_first() {
            assert(a =~= seq![a[0]] + a.drop_first());
            assert(b =~= seq![b[0]] + b.drop_first());
        }
    } else if a.len() > 0 && b.len() > 0 {
        let x = a[0] as u32;
        let y = b[0] as u32;
        if x == y {
            vstd::utf8::char_u32_cast(a[0], x);
            vstd::utf8::char_u32_cast(b[0], y);
        }
    }
}

pub proof fn lemma_less_asymmetric(a: Seq<char>, b: Seq<char>)
    requires
        seq_less(a, b),
    ensures
        !seq_less(b, a),
{
    if seq_less(b, a) {
        lemma_less_transitive(a, b, a);
        lemma_less_irreflexive(a);
    }
}

/// Whether `a` comes strictly before `b`.
pub fn less(a: &Vec<char>, b: &Vec<char>) -> (res: bool)
    ensures
        res == seq_less(a@, b@),
{
    let mut i: usize = 0;
    assert(a@.skip(0) =~= a@);
    assert(b@.skip(0) =~= b@);
    loop
        invariant
            i <= a.len(),
            i <= b.len(),
            seq_less(a@, b@) == seq_less(a@.skip(i as int), b@.skip(i as int)),
        decreases a.len() - i,
    {
        if i == b.len() {
            return false;
        }
        if i == a.len() {
            return true;
        }
        let x = a[i];
        let y = b[i];
        if (x as u32) < (y as u32) {
            return true;
        }
        if x != y {
            return false;
        }
        assert(a@.skip(i as int).drop_first() =~= a@.skip(i + 1));
        assert(b@.skip(i as int).drop_first() =~= b@.skip(i + 1));
        i += 1;
    }
}

/// Where `key` belongs in a strictly sorted sequence, and whether it is
/// already there.
pub fn find_slot(keys: &Vec<Vec<char>>, key: &Vec<char>) -> (res: (usize, bool))
    requires
        strictly_sorted(keys@.map_values(|k: Vec<char>| k@)),
    ensures
        res.0 <= keys@.len(),
        forall|j: int| 0 <= j < res.0 ==> seq_less(#[trigger] keys@[j]@, key@),
        res.1 == (res.0 < keys@.len() && keys@[res.0 as int]@ == key@),
        res.0 < keys@.len() && !res.1 ==> seq_less(key@, keys@[res.0 as int]@),
{
    let ghost s = keys@.map_values(|k: Vec<char>| k@);
    let mut p: usize = 0;
    while p < keys.len() && less(&keys[p], key)
        invariant
            p <= keys@.len(),
            s == keys@.map_values(|k: Vec<char>| k@),
            forall|j: int| 0 <= j < p ==> seq_less(#[trigger] keys@[j]@, key@),
        decreases keys@.len() - p,
    {
        p += 1;
    }
    if p < keys.len() {
        proof {
            lemma_less_total(keys@[p as int]@, key@);
        }
        let same = !less(key, &keys[p]) && !less(&keys[p], key);
        if same {
            assert(keys@[p as int]@ == key@);
        }
        (p, same)
    } else {
        (p, false)
    }
}


// ---------------------------------------------------------------------------
// Agreement with the byte order of UTF-8
// ---------------------------------------------------------------------------

/// `x` comes strictly before `y` in byte order (how `str` and `String`
/// compare).
pub open spec fn bytes_less(x: Seq<u8>, y: Seq<u8>) -> bool
    decreases x.len(),
{
    if y.len() == 0 {
        false
    } else if x.len() == 0 {
        true
    } else if x[0] < y[0] {
        true
    } else if x[0] == y[0] {
        bytes_less(x.drop_first(), y.drop_first())
    } else {
        false
    }
}

proof fn lemma_bytes_less_prefix(p: Seq<u8>, x: Seq<u8>, y: Seq<u8>)
    ensures
        bytes_less(p + x, p + y) == bytes_less(x, y),
    decreases p.len(),
{
    if p.len() > 0 {
        assert((p + x).drop_first() =~= p.drop_first() + x);
        assert((p + y).drop_first() =~= p.drop_first() + y);
        assert((p + x)[0] == p[0]);
        assert((p + y)[0] == p[0]);
        lemma_bytes_less_prefix(p.drop_first(), x, y);
    } else {
        assert(p + x =~= x);
        assert(p + y =~= y);
    }
}

proof fn lemma_bytes_less_asymmetric(x: Seq<u8>, y: Seq<u8>)
    requires
        bytes_less(x, y),
    ensures
        !bytes_less(y, x),
    decreases x.len(),
{
    if x.len() > 0 && y.len() > 0 && x[0] == y[0] {
        lemma_bytes_less_asymmetric(x.drop_first(), y.drop_first());
    }
}

/// The first byte decides when it differs.
proof fn lemma_bytes_less_first(x: Seq<u8>, y: Seq<u8>)
    requires
        x.len() > 0,
        y.len() > 0,
        x[0] < y[0],
    ensures
        bytes_less(x, y),
{
}

/// With an equal first byte, the rest decides.
proof fn lemma_bytes_less_next(x: Seq<u8>, y: Seq<u8>)
    requires
        x.len() > 0,
        y.len() > 0,
        x[0] == y[0],
    ensures
        bytes_less(x, y) == bytes_less(x.drop_first(), y.drop_first()),
{
}

proof fn lemma_width_bytes(u: u32)
    requires
        vstd::utf8::is_scalar(u),
    ensures
        vstd::utf8::has_width_1_encoding(u) ==> vstd::utf8::leading_byte_width_1(u) == u
            && u <= 0x7F,
        vstd::utf8::has_width_2_encoding(u) ==> 0xC0 <= vstd::utf8::leading_byte_width_2(u) <= 0xDF,
        vstd::utf8::has_width_3_encoding(u) ==> 0xE0 <= vstd::utf8::leading_byte_width_3(u) <= 0xEF,
        vstd::utf8::has_width_4_encoding(u) ==> 0xF0 <= vstd::utf8::leading_byte_width_4(u) <= 0xF7,
{
    assert(u <= 0x7F ==> (u & 0x7F) as u8 == u) by (bit_vector);
    assert(0xC0u8 <= 0xC0u8 | (((u >> 6u32) & 0x1Fu32) as u8) <= 0xDFu8) by (bit_vector);
    assert(0xE0u8 <= 0xE0u8 | (((u >> 12u32) & 0x0Fu32) as u8) <= 0xEFu8) by (bit_vector);
    assert(0xF0u8 <= 0xF0u8 | (((u >> 18u32) & 0x7u32) as u8) <= 0xF7u8) by (bit_vector);
}

proof fn lemma_continuation_order(p: u32, q: u32)
    by (bit_vector)
    requires
        p <= 0x3Fu32,
        q <= 0x3Fu32,
    ensures
        p < q ==> 0x80u8 | (p as u8) < 0x80u8 | (q as u8),
        p == q ==> 0x80u8 | (p as u8) == 0x80u8 | (q as u8),
{
}

/// A smaller scalar has a UTF-8 encoding that comes first in byte order,
/// whatever follows either encoding.
proof fn lemma_scalar_bytes_order(u: u32, v: u32, x: Seq<u8>, y: Seq<u8>)
    requires
        vstd::utf8::is_scalar(u),
        vstd::utf8::is_scalar(v),
        u < v,
    ensures
        bytes_less(vstd::utf8::encode_scalar(u) + x, vstd::utf8::encode_scalar(v) + y),
{
    let eu = encode_scalar(u);
    let ev = encode_scalar(v);
    let a = eu + x;
    let b = ev + y;
    lemma_width_bytes(u);
    lemma_width_bytes(v);
    assert(eu.len() > 0 && ev.len() > 0);
    assert(a[0] == eu[0]);
    assert(b[0] == ev[0]);
    if a[0] < b[0] {
        lemma_bytes_less_first(a, b);
        return;
    }
    // Same leading byte: same width, and the following bytes decide.
    if has_width_2_encoding(u) {
        assert(has_width_2_encoding(v));
        assert(0xC0u8 | (((u >> 6u32) & 0x1Fu32) as u8) <= 0xC0u8 | (((v >> 6u32) & 0x1Fu32) as u8)
            && (0xC0u8 | (((u >> 6u32) & 0x1Fu32) as u8) == 0xC0u8 | (((v >> 6u32) & 0x1Fu32) as u8)
            ==> 0x80u8 | ((u & 0x3Fu32) as u8) < 0x80u8 | ((v & 0x3Fu32) as u8))) by (bit_vector)
            requires
                0x80u32 <= u < v <= 0x7FFu32,
        ;
        lemma_bytes_less_next(a, b);
        assert(a.drop_first()[0] == last_continuation_byte(u));
        assert(b.drop_first()[0] == last_continuation_byte(v));
        lemma_bytes_less_first(a.drop_first(), b.drop_first());
    } else if has_width_3_encoding(u) {
        assert(has_width_3_encoding(v));
        let (u1, u2, u3) = ((u >> 12u32) & 0x0Fu32, (u >> 6u32) & 0x3Fu32, u & 0x3Fu32);
        let (v1, v2, v3) = ((v >> 12u32) & 0x0Fu32, (v >> 6u32) & 0x3Fu32, v & 0x3Fu32);
        assert(u1 == v1 ==> u2 < v2 || (u2 == v2 && u3 < v3)) by (bit_vector)
            requires
                u < v <= 0xFFFFu32,
                u1 == (u >> 12u32) & 0x0Fu32,
                u2 == (u >> 6u32) & 0x3Fu32,
                u3 == u & 0x3Fu32,
                v1 == (v >> 12u32) & 0x0Fu32,
                v2 == (v >> 6u32) & 0x3Fu32,
                v3 == v & 0x3Fu32,
        ;
        assert(u1 <= 0x0Fu32 && v1 <= 0x0Fu32 && u2 <= 0x3Fu32 && v2 <= 0x3Fu32 && u3 <= 0x3Fu32
            && v3 <= 0x3Fu32) by (bit_vector)
            requires
                u1 == (u >> 12u32) & 0x0Fu32,
                u2 == (u >> 6u32) & 0x3Fu32,
                u3 == u & 0x3Fu32,
                v1 == (v >> 12u32) & 0x0Fu32,
                v2 == (v >> 6u32) & 0x3Fu32,
                v3 == v & 0x3Fu32,
        ;
        assert(u1 <= v1) by (bit_vector)
            requires
                u < v,
                u1 == (u >> 12u32) & 0x0Fu32,
                v1 == (v >> 12u32) & 0x0Fu32,
                v <= 0xFFFFu32,
        ;
        assert(0xE0u8 | (u1 as u8) <= 0xE0u8 | (v1 as u8)) by (bit_vector)
            requires
                u1 <= v1 <= 0x0Fu32,
        ;
        assert(0xE0u8 | (u1 as u8) == 0xE0u8 | (v1 as u8) ==> u1 == v1) by (bit_vector)
            requires
                u1 <= 0x0Fu32,
                v1 <= 0x0Fu32,
        ;
        assert(u2 < v2 ==> 0x80u8 | (u2 as u8) < 0x80u8 | (v2 as u8)) by (bit_vector)
            requires
                u2 <= 0x3Fu32,
                v2 <= 0x3Fu32,
        ;
        assert(u2 == v2 ==> 0x80u8 | (u2 as u8) == 0x80u8 | (v2 as u8)) by (bit_vector);
        assert(u3 < v3 ==> 0x80u8 | (u3 as u8) < 0x80u8 | (v3 as u8)) by (bit_vector)
            requires
                u3 <= 0x3Fu32,
                v3 <= 0x3Fu32,
        ;
        let a1 = a.drop_first();
        let b1 = b.drop_first();
        lemma_bytes_less_next(a, b);
        assert(a1[0] == second_last_continuation_byte(u));
        assert(b1[0] == second_last_continuation_byte(v));
        if u2 < v2 {
            lemma_bytes_less_first(a1, b1);
        } else {
            lemma_bytes_less_next(a1, b1);
            assert(a1.drop_first()[0] == last_continuation_byte(u));
            assert(b1.drop_first()[0] == last_continuation_byte(v));
            lemma_bytes_less_first(a1.drop_first(), b1.drop_first());
        }
    } else {
        assert(has_width_4_encoding(u) && has_width_4_encoding(v));
        let (u1, u2, u3, u4) = (
            (u >> 18u32) & 0x7u32,
            (u >> 12u32) & 0x3Fu32,
            (u >> 6u32) & 0x3Fu32,
            u & 0x3Fu32,
        );
        let (v1, v2, v3, v4) = (
            (v >> 18u32) & 0x7u32,
            (v >> 12u32) & 0x3Fu32,
            (v >> 6u32) & 0x3Fu32,
            v & 0x3Fu32,
        );
        assert(u1 == v1 ==> u2 < v2 || (u2 == v2 && (u3 < v3 || (u3 == v3 && u4 < v4)))) by (bit_vector)
            requires
                u < v <= 0x10FFFFu32,
                u1 == (u >> 18u32) & 0x7u32,
                u2 == (u >> 12u32) & 0x3Fu32,
                u3 == (u >> 6u32) & 0x3Fu32,
                u4 == u & 0x3Fu32,
                v1 == (v >> 18u32) & 0x7u32,
                v2 == (v >> 12u32) & 0x3Fu32,
                v3 == (v >> 6u32) & 0x3Fu32,
                v4 == v & 0x3Fu32,
        ;
        assert(u1 <= 0x7u32 && v1 <= 0x7u32 && u2 <= 0x3Fu32 && v2 <= 0x3Fu32 && u3 <= 0x3Fu32
            && v3 <= 0x3Fu32 && u4 <= 0x3Fu32 && v4 <= 0x3Fu32) by (bit_vector)
            requires
                u1 == (u >> 18u32) & 0x7u32,
                u2 == (u >> 12u32) & 0x3Fu32,
                u3 == (u >> 6u32) & 0x3Fu32,
                u4 == u & 0x3Fu32,
                v1 == (v >> 18u32) & 0x7u32,
                v2 == (v >> 12u32) & 0x3Fu32,
                v3 == (v >> 6u32) & 0x3Fu32,
                v4 == v & 0x3Fu32,
        ;
        assert(u1 <= v1) by (bit_vector)
            requires
                u < v,
                u1 == (u >> 18u32) & 0x7u32,
                v1 == (v >> 18u32) & 0x7u32,
                v <= 0x10FFFFu32,
        ;
        assert(0xF0u8 | (u1 as u8) <= 0xF0u8 | (v1 as u8)) by (bit_vector)
            requires
                u1 <= v1 <= 0x7u32,
        ;
        assert(0xF0u8 | (u1 as u8) == 0xF0u8 | (v1 as u8) ==> u1 == v1) by (bit_vector)
            requires
                u1 <= 0x7u32,
                v1 <= 0x7u32,
        ;
        lemma_continuation_order(u2, v2);
        lemma_continuation_order(u3, v3);
        lemma_continuation_order(u4, v4);
        let a1 = a.drop_first();
        let b1 = b.drop_first();
        lemma_bytes_less_next(a, b);
        assert(a1[0] == third_last_continuation_byte(u));
        assert(b1[0] == third_last_continuation_byte(v));
        if u2 < v2 {
            lemma_bytes_less_first(a1, b1);
        } else {
            lemma_bytes_less_next(a1, b1);
            let a2 = a1.drop_first();
            let b2 = b1.drop_first();
            assert(a2[0] == second_last_continuation_byte(u));
            assert(b2[0] == second_last_continuation_byte(v));
            if u3 < v3 {
                lemma_bytes_less_first(a2, b2);
            } else {
                lemma_bytes_less_next(a2, b2);
                assert(a2.drop_first()[0] == last_continuation_byte(u));
                assert(b2.drop_first()[0] == last_continuation_byte(v));
                lemma_bytes_less_first(a2.drop_first(), b2.drop_first());
            }
        }
    }
}

/// The order of strings by code point is the byte order of their UTF-8
/// encodings.
pub proof fn law_code_point_order_is_byte_order(a: Seq<char>, b: Seq<char>)
    ensures
        seq_less(a, b) == bytes_less(vstd::utf8::encode_utf8(a), vstd::utf8::encode_utf8(b)),
    decreases a.len(),
{
    if a.len() == 0 || b.len() == 0 {
        if b.len() > 0 {
            vstd::utf8::char_is_scalar(b[0]);
            assert(encode_scalar(b[0] as u32).len() > 0);
        }
    } else {
        vstd::utf8::char_is_scalar(a[0]);
        vstd::utf8::char_is_scalar(b[0]);
        let ea = encode_utf8(a);
        let eb = encode_utf8(b);
        assert(ea == encode_scalar(a[0] as u32) + encode_utf8(a.drop_first()));
        assert(eb == encode_scalar(b[0] as u32) + encode_utf8(b.drop_first()));
        if a[0] == b[0] {
            lemma_bytes_less_prefix(encode_scalar(a[0] as u32), encode_utf8(a.drop_first()), encode_utf8(b.drop_first()));
            law_code_point_order_is_byte_order(a.drop_first(), b.drop_first());
        } else if (a[0] as u32) < (b[0] as u32) {
            lemma_scalar_bytes_order(a[0] as u32, b[0] as u32, encode_utf8(a.drop_first()), encode_utf8(b.drop_first()));
        } else {
            let x = a[0] as u32;
            let y = b[0] as u32;
            if x == y {
                vstd::utf8::char_u32_cast(a[0], x);
                vstd::utf8::char_u32_cast(b[0], y);
            }
            lemma_scalar_bytes_order(b[0] as u32, a[0] as u32, encode_utf8(b.drop_first()), encode_utf8(a.drop_first()));
            lemma_bytes_less_asymmetric(eb, ea);
        }
    }
}

} // verus!
