//! Base64: the padded standard encoder used for every packet sent over the LAN API,
//! and the lenient decoder used on scene parameters and tokens.

use vstd::prelude::*;
use crate::text::push_char;

verus! {

/// The character of the standard base64 alphabet for the 6-bit value `v`.
pub open spec fn b64_char(v: int) -> char {
    if v < 26 {
        (65 + v) as char
    } else if v < 52 {
        (97 + (v - 26)) as char
    } else if v < 62 {
        (48 + (v - 52)) as char
    } else if v == 62 {
        '+'
    } else {
        '/'
    }
}

/// The 6-bit value of an input byte: the standard alphabet, plus `-` and `_` of the
/// URL-safe one; every other byte (padding, whitespace, anything else) has none.
pub open spec fn b64_value(b: u8) -> Option<u8> {
    if 65 <= b <= 90 {
        Some((b - 65) as u8)
    } else if 97 <= b <= 122 {
        Some((b - 71) as u8)
    } else if 48 <= b <= 57 {
        Some((b + 4) as u8)
    } else if b == 43 || b == 45 {
        Some(62u8)
    } else if b == 47 || b == 95 {
        Some(63u8)
    } else {
        None
    }
}

/// The encoding of one group of 1 to 3 bytes: four characters, `=` standing for the
/// sextets that no input byte reaches.
pub open spec fn enc_chunk(c: Seq<u8>) -> Seq<char> {
    let b0 = c[0] as int;
    let b1 = if c.len() > 1 { c[1] as int } else { 0 };
    let b2 = if c.len() > 2 { c[2] as int } else { 0 };
    seq![
        b64_char(b0 / 4),
        b64_char((b0 % 4) * 16 + b1 / 16),
        if c.len() > 1 { b64_char((b1 % 16) * 4 + b2 / 64) } else { '=' },
        if c.len() > 2 { b64_char(b2 % 64) } else { '=' },
    ]
}

/// Where the last group of `n` items begins, groups being of `k` items from the start.
pub open spec fn last_group_start(n: int, k: int) -> int {
    if n % k == 0 {
        n - k
    } else {
        n - n % k
    }
}

/// Padded standard base64 of `x`, group of 3 bytes after group of 3 bytes.
pub open spec fn spec_b64(x: Seq<u8>) -> Seq<char>
    decreases x.len(),
{
    if x.len() == 0 {
        Seq::empty()
    } else {
        let k = last_group_start(x.len() as int, 3);
        spec_b64(x.take(k)) + enc_chunk(x.skip(k))
    }
}

/// The 6-bit values of the bytes that have one, in order.
pub open spec fn b64_sextets(bytes: Seq<u8>) -> Seq<u8>
    decreases bytes.len(),
{
    if bytes.len() == 0 {
        Seq::empty()
    } else {
        b64_sextets(bytes.drop_last()) + match b64_value(bytes.last()) {
            Some(v) => seq![v],
            None => Seq::empty(),
        }
    }
}

/// The bytes of a group of up to four sextets: one byte for every sextet after the
/// first, the bits left over at the end being dropped.
pub open spec fn group_bytes(g: Seq<u8>) -> Seq<u8> {
    (if g.len() >= 2 { seq![(g[0] * 4 + g[1] / 16) as u8] } else { Seq::empty() }) + (if g.len()
        >= 3 {
        seq![((g[1] % 16) * 16 + g[2] / 4) as u8]
    } else {
        Seq::empty()
    }) + (if g.len() >= 4 { seq![((g[2] % 4) * 64 + g[3]) as u8] } else { Seq::empty() })
}

/// Bytes of a sequence of sextets, group of 4 after group of 4.
pub open spec fn decode_sextets(q: Seq<u8>) -> Seq<u8>
    decreases q.len(),
{
    if q.len() == 0 {
        Seq::empty()
    } else {
        let k = last_group_start(q.len() as int, 4);
        decode_sextets(q.take(k)) + group_bytes(q.skip(k))
    }
}

/// What the lenient decoder gives for the bytes of its input.
pub open spec fn spec_b64decode(bytes: Seq<u8>) -> Seq<u8> {
    decode_sextets(b64_sextets(bytes))
}

fn b64_char_exec(v: u8) -> (c: char)
    requires
        v < 64,
    ensures
        c == b64_char(v as int),
{
    if v < 26 {
        (65 + v) as char
    } else if v < 52 {
        (97 + (v - 26)) as char
    } else if v < 62 {
        (48 + (v - 52)) as char
    } else if v == 62 {
        '+'
    } else {
        '/'
    }
}

fn b64_value_exec(b: u8) -> (r: Option<u8>)
    ensures
        r == b64_value(b),
{
    if 65 <= b && b <= 90 {
        Some(b - 65)
    } else if 97 <= b && b <= 122 {
        Some(b - 71)
    } else if 48 <= b && b <= 57 {
        Some(b + 4)
    } else if b == 43 || b == 45 {
        Some(62)
    } else if b == 47 || b == 95 {
        Some(63)
    } else {
        None
    }
}

/// Standard base64 with `=` padding.
pub fn b64(b: &[u8]) -> (s: String)
    ensures
        s@ == spec_b64(b@),
{
    let mut s = String::new();
    let n = b.len();
    let mut i: usize = 0;
    while i < n
        invariant
            n == b@.len(),
            i <= n,
            i % 3 == 0 || i == n,
            s@ == spec_b64(b@.take(i as int)),
        decreases n - i,
    {
        let e: usize = if n - i >= 3 { i + 3 } else { n };
        let b0 = b[i];
        let b1: u8 = if e - i > 1 { b[i + 1] } else { 0 };
        let b2: u8 = if e - i > 2 { b[i + 2] } else { 0 };
        let ghost c = b@.subrange(i as int, e as int);
        let ghost before = s@;
        push_char(&mut s, b64_char_exec(b0 / 4));
        push_char(&mut s, b64_char_exec((b0 % 4) * 16 + b1 / 16));
        if e - i > 1 {
            push_char(&mut s, b64_char_exec((b1 % 16) * 4 + b2 / 64));
        } else {
            push_char(&mut s, '=');
        }
        if e - i > 2 {
            push_char(&mut s, b64_char_exec(b2 % 64));
        } else {
            push_char(&mut s, '=');
        }
        proof {
            let t = b@.take(e as int);
            assert(t.take(i as int) =~= b@.take(i as int));
            assert(t.skip(i as int) =~= c);
            assert(last_group_start(e as int, 3) == i);
            assert(s@ =~= before + enc_chunk(c));
        }
        i = e;
    }
    assert(b@.take(n as int) =~= b@);
    s
}

/// Base64 decoding that never fails: `=`, whitespace and every byte outside the
/// standard and URL-safe alphabets are skipped; each group of four sextets gives three
/// bytes, and a trailing group of two or three gives one or two.
pub fn b64decode(s: &str) -> (out: Vec<u8>)
    ensures
        out@ == spec_b64decode(vstd::utf8::encode_utf8(s@)),
{
    let bytes = s.as_bytes();
    let n = bytes.len();
    let mut out: Vec<u8> = Vec::new();
    let mut prev: u8 = 0;
    let mut m: usize = 0;
    let mut i: usize = 0;
    while i < n
        invariant
            n == bytes@.len(),
            i <= n,
            ({
                let q = b64_sextets(bytes@.take(i as int));
                &&& m == q.len() % 4
                &&& m > 0 ==> prev == q.last()
                &&& out@ == decode_sextets(q)
                &&& forall|j: int| 0 <= j < q.len() ==> q[j] < 64
            }),
        decreases n - i,
    {
        let ghost q = b64_sextets(bytes@.take(i as int));
        let c = bytes[i];
        assert(bytes@.take(i + 1).drop_last() =~= bytes@.take(i as int));
        match b64_value_exec(c) {
            None => {},
            Some(v) => {
                let ghost q2 = q.push(v);
                assert(b64_sextets(bytes@.take(i + 1)) =~= q2);
                let ghost k = q.len() as int;
                if m == 0 {
                    assert(q2.take(k) =~= q);
                    assert(q2.skip(k) =~= seq![v]);
                    prev = v;
                    m = 1;
                } else if m == 1 {
                    assert(q2.take(k - 1) =~= q.take(k - 1));
                    assert(q2.skip(k - 1) =~= seq![prev, v]);
                    assert(q.skip(k - 1) =~= seq![prev]);
                    out.push(prev * 4 + v / 16);
                    prev = v;
                    m = 2;
                } else if m == 2 {
                    assert(q2.take(k - 2) =~= q.take(k - 2));
                    assert(q2.skip(k - 2) =~= seq![q[k - 2], prev, v]);
                    assert(q.skip(k - 2) =~= seq![q[k - 2], prev]);
                    out.push((prev % 16) * 16 + v / 4);
                    prev = v;
                    m = 3;
                } else {
                    assert(q2.take(k - 3) =~= q.take(k - 3));
                    assert(q2.skip(k - 3) =~= seq![q[k - 3], q[k - 2], prev, v]);
                    assert(q.skip(k - 3) =~= seq![q[k - 3], q[k - 2], prev]);
                    out.push((prev % 4) * 64 + v);
                    m = 0;
                }
            },
        }
        i = i + 1;
    }
    assert(bytes@.take(n as int) =~= bytes@);
    out
}

/// The bytes of a sequence of ASCII characters, one per character.
pub open spec fn ascii_bytes(cs: Seq<char>) -> Seq<u8> {
    Seq::new(cs.len(), |i: int| cs[i] as u8)
}

/// The sextets that the encoder writes for a group of 1 to 3 bytes.
spec fn chunk_sextets(c: Seq<u8>) -> Seq<u8> {
    let b0 = c[0] as int;
    let b1 = if c.len() > 1 { c[1] as int } else { 0 };
    let b2 = if c.len() > 2 { c[2] as int } else { 0 };
    seq![(b0 / 4) as u8, ((b0 % 4) * 16 + b1 / 16) as u8] + (if c.len() > 1 {
        seq![((b1 % 16) * 4 + b2 / 64) as u8]
    } else {
        Seq::empty()
    }) + (if c.len() > 2 { seq![(b2 % 64) as u8] } else { Seq::empty() })
}

proof fn lemma_alphabet(v: int)
    requires
        0 <= v < 64,
    ensures
        b64_char(v) as u8 as int == (if v < 26 { 65 + v } else if v < 52 { 97 + (v - 26) } else if v
            < 62 { 48 + (v - 52) } else if v == 62 { 43 } else { 47 }),
        b64_value(b64_char(v) as u8) == Some(v as u8),
        '\0' <= b64_char(v) <= '\u{7f}',
{
}

proof fn lemma_sextets_concat(a: Seq<u8>, b: Seq<u8>)
    ensures
        b64_sextets(a + b) == b64_sextets(a) + b64_sextets(b),
    decreases b.len(),
{
    if b.len() == 0 {
        assert(a + b =~= a);
        assert(b64_sextets(a) + b64_sextets(b) =~= b64_sextets(a));
    } else {
        assert((a + b).drop_last() =~= a + b.drop_last());
        lemma_sextets_concat(a, b.drop_last());
        assert(b64_sextets(a + b) =~= b64_sextets(a) + b64_sextets(b));
    }
}

proof fn lemma_chunk_sextets(c: Seq<u8>)
    requires
        1 <= c.len() <= 3,
    ensures
        b64_sextets(ascii_bytes(enc_chunk(c))) == chunk_sextets(c),
        group_bytes(chunk_sextets(c)) == c,
{
    let b0 = c[0] as int;
    let b1 = if c.len() > 1 { c[1] as int } else { 0 };
    let b2 = if c.len() > 2 { c[2] as int } else { 0 };
    let s0 = b0 / 4;
    let s1 = (b0 % 4) * 16 + b1 / 16;
    let s2 = (b1 % 16) * 4 + b2 / 64;
    let s3 = b2 % 64;
    assert(0 <= s0 < 64 && 0 <= s1 < 64 && 0 <= s2 < 64 && 0 <= s3 < 64) by (nonlinear_arith)
        requires
            0 <= b0 < 256 && 0 <= b1 < 256 && 0 <= b2 < 256,
            s0 == b0 / 4,
            s1 == (b0 % 4) * 16 + b1 / 16,
            s2 == (b1 % 16) * 4 + b2 / 64,
            s3 == b2 % 64,
    ;
    lemma_alphabet(s0);
    lemma_alphabet(s1);
    lemma_alphabet(s2);
    lemma_alphabet(s3);
    let a = ascii_bytes(enc_chunk(c));
    assert(b64_value(a[3]) == (if c.len() > 2 { Some(s3 as u8) } else { None::<u8> }));
    assert(b64_value(a[2]) == (if c.len() > 1 { Some(s2 as u8) } else { None::<u8> }));
    assert(b64_value(a[1]) == Some(s1 as u8));
    assert(b64_value(a[0]) == Some(s0 as u8));
    let a1 = a.drop_last();
    let a2 = a1.drop_last();
    let a3 = a2.drop_last();
    let a4 = a3.drop_last();
    assert(a4.len() == 0);
    assert(b64_sextets(a4) =~= Seq::<u8>::empty());
    assert(a3.last() == a[0]);
    assert(a2.last() == a[1]);
    assert(a1.last() == a[2]);
    assert(a.last() == a[3]);
    assert(b64_sextets(a3) =~= seq![s0 as u8]);
    assert(b64_sextets(a2) =~= seq![s0 as u8, s1 as u8]);
    assert(b64_sextets(a1) =~= seq![s0 as u8, s1 as u8] + (if c.len() > 1 {
        seq![s2 as u8]
    } else {
        Seq::empty()
    }));
    assert(b64_sextets(a) =~= chunk_sextets(c));
    assert(s0 * 4 + s1 / 16 == b0 && (s1 % 16) * 16 + s2 / 4 == b1 && (s2 % 4) * 64 + s3 == b2)
        by (nonlinear_arith)
        requires
            0 <= b0 < 256 && 0 <= b1 < 256 && 0 <= b2 < 256,
            s0 == b0 / 4,
            s1 == (b0 % 4) * 16 + b1 / 16,
            s2 == (b1 % 16) * 4 + b2 / 64,
            s3 == b2 % 64,
    ;
    assert(group_bytes(chunk_sextets(c)) =~= c);
}

proof fn lemma_decode_append(q: Seq<u8>, g: Seq<u8>)
    requires
        q.len() % 4 == 0,
        1 <= g.len() <= 4,
    ensures
        decode_sextets(q + g) == decode_sextets(q) + group_bytes(g),
{
    let r = q + g;
    assert(last_group_start(r.len() as int, 4) == q.len());
    assert(r.take(q.len() as int) =~= q);
    assert(r.skip(q.len() as int) =~= g);
}

proof fn lemma_b64_ascii(x: Seq<u8>)
    ensures
        vstd::utf8::is_ascii_chars(spec_b64(x)),
    decreases x.len(),
{
    if x.len() > 0 {
        let k = last_group_start(x.len() as int, 3);
        lemma_b64_ascii(x.take(k));
        let c = x.skip(k);
        let b0 = c[0] as int;
        let b1 = if c.len() > 1 { c[1] as int } else { 0 };
        let b2 = if c.len() > 2 { c[2] as int } else { 0 };
        assert(0 <= b0 / 4 < 64 && 0 <= (b0 % 4) * 16 + b1 / 16 < 64 && 0 <= (b1 % 16) * 4 + b2
            / 64 < 64 && 0 <= b2 % 64 < 64) by (nonlinear_arith)
            requires
                0 <= b0 < 256 && 0 <= b1 < 256 && 0 <= b2 < 256,
        ;
        lemma_alphabet(b0 / 4);
        lemma_alphabet((b0 % 4) * 16 + b1 / 16);
        lemma_alphabet((b1 % 16) * 4 + b2 / 64);
        lemma_alphabet(b2 % 64);
        let e = enc_chunk(c);
        assert(vstd::utf8::is_ascii_chars(e));
        let a = spec_b64(x.take(k));
        assert forall|i: int| 0 <= i < (a + e).len() implies '\0' <= #[trigger] (a + e)[i] <= '\u{7f}' by {
            if i < a.len() {
                assert((a + e)[i] == a[i]);
            } else {
                assert((a + e)[i] == e[i - a.len()]);
            }
        }
    }
}

#[verifier::rlimit(40)]
proof fn lemma_roundtrip_sextets(x: Seq<u8>)
    ensures
        decode_sextets(b64_sextets(ascii_bytes(spec_b64(x)))) == x,
        x.len() % 3 == 0 ==> b64_sextets(ascii_bytes(spec_b64(x))).len() % 4 == 0,
    decreases x.len(),
{
    if x.len() == 0 {
        assert(ascii_bytes(spec_b64(x)) =~= Seq::<u8>::empty());
        assert(b64_sextets(ascii_bytes(spec_b64(x))) =~= Seq::<u8>::empty());
        assert(x =~= Seq::<u8>::empty());
    } else {
        let n = x.len() as int;
        let k = last_group_start(n, 3);
        assert(0 <= k < n && n - k <= 3 && k % 3 == 0 && (n % 3 == 0 ==> n - k == 3));
        let p = x.take(k);
        let c = x.skip(k);
        assert(spec_b64(x) == spec_b64(p) + enc_chunk(c));
        lemma_roundtrip_sextets(p);
        lemma_chunk_sextets(c);
        let ap = ascii_bytes(spec_b64(p));
        let ac = ascii_bytes(enc_chunk(c));
        assert(ascii_bytes(spec_b64(x)) =~= ap + ac);
        lemma_sextets_concat(ap, ac);
        let qp = b64_sextets(ap);
        let qc = chunk_sextets(c);
        assert(b64_sextets(ascii_bytes(spec_b64(x))) == qp + qc);
        assert(qp.len() % 4 == 0);
        assert(2 <= qc.len() <= 4 && (c.len() == 3 ==> qc.len() == 4));
        lemma_decode_append(qp, qc);
        assert(x =~= p + c);
    }
}

/// Decoding what [`b64`] wrote gives the same bytes back: the text of `b64(x)`,
/// read as bytes by [`b64decode`], decodes to `x`.
pub proof fn lemma_b64decode_b64(x: Seq<u8>)
    ensures
        spec_b64decode(vstd::utf8::encode_utf8(spec_b64(x))) == x,
{
    let cs = spec_b64(x);
    lemma_b64_ascii(x);
    vstd::utf8::is_ascii_chars_encode_utf8(cs);
    assert(vstd::utf8::encode_utf8(cs) =~= ascii_bytes(cs));
    lemma_roundtrip_sextets(x);
}

} // verus!
