//! Framing of the byte packets sent to lights: BLE-style 20-byte lines and the
//! `razer` segment-streaming packets, both closed by an XOR checksum.

use vstd::prelude::*;

verus! {

/// XOR of all bytes of `s` (0 for the empty sequence).
pub open spec fn xor_all(s: Seq<u8>) -> u8
    decreases s.len(),
{
    if s.len() == 0 {
        0
    } else {
        xor_all(s.drop_last()) ^ s.last()
    }
}

/// `s` cut or zero-padded to exactly 19 bytes.
pub open spec fn resize19(s: Seq<u8>) -> Seq<u8> {
    if s.len() >= 19 {
        s.take(19)
    } else {
        s + Seq::new((19 - s.len()) as nat, |i: int| 0u8)
    }
}

/// A packet closed by the XOR of everything before it.
pub open spec fn with_checksum(s: Seq<u8>) -> Seq<u8> {
    s.push(xor_all(s))
}

/// The BLE line for `payload`: payload cut or padded to 19 bytes, then its XOR.
pub open spec fn spec_ble_packet(payload: Seq<u8>) -> Seq<u8> {
    with_checksum(resize19(payload))
}

/// Header of a razer packet: `BB 00 <len>` where `len` counts the body after its
/// command byte.
pub open spec fn razer_header(body: Seq<u8>) -> Seq<u8> {
    seq![0xBBu8, 0x00u8, ((body.len() - 1) % 256) as u8]
}

/// The razer packet framing `body` (`<cmd> <args...>`).
pub open spec fn spec_razer_packet(body: Seq<u8>) -> Seq<u8> {
    with_checksum(razer_header(body) + body)
}

/// The bytes of a colour list, `r g b` after `r g b`.
pub open spec fn flat_rgb(colors: Seq<[u8; 3]>) -> Seq<u8>
    decreases colors.len(),
{
    if colors.len() == 0 {
        Seq::empty()
    } else {
        flat_rgb(colors.drop_last()) + colors.last()@
    }
}

/// Body of the razer colour frame: `B0 01 <n> r g b ...`.
pub open spec fn razer_colors_body(colors: Seq<[u8; 3]>) -> Seq<u8> {
    seq![0xB0u8, 0x01u8, (colors.len() % 256) as u8] + flat_rgb(colors)
}

proof fn lemma_xor_push(s: Seq<u8>, x: u8)
    ensures
        xor_all(s.push(x)) == xor_all(s) ^ x,
{
    assert(s.push(x).drop_last() =~= s);
}

/// The XOR of a packet closed by its checksum is 0: this is what a receiver checks.
pub proof fn lemma_checksum_closes(s: Seq<u8>)
    ensures
        xor_all(with_checksum(s)) == 0,
{
    lemma_xor_push(s, xor_all(s));
    let a = xor_all(s);
    assert(a ^ a == 0) by (bit_vector);
}

/// Every BLE line XORs to 0 over its 20 bytes.
pub proof fn lemma_ble_packet_checksum(payload: Seq<u8>)
    ensures
        xor_all(spec_ble_packet(payload)) == 0,
{
    lemma_checksum_closes(resize19(payload));
}

/// Every razer packet XORs to 0 over all its bytes, header included.
pub proof fn lemma_razer_packet_checksum(body: Seq<u8>)
    ensures
        xor_all(spec_razer_packet(body)) == 0,
{
    lemma_checksum_closes(razer_header(body) + body);
}

/// A BLE line starts with its payload when the payload fits in 19 bytes, the rest of
/// the 19 being zeros.
pub proof fn lemma_ble_packet_keeps_payload(payload: Seq<u8>)
    requires
        payload.len() <= 19,
    ensures
        spec_ble_packet(payload).take(payload.len() as int) == payload,
        forall|i: int| payload.len() <= i < 19 ==> #[trigger] spec_ble_packet(payload)[i] == 0,
{
    assert(spec_ble_packet(payload).take(payload.len() as int) =~= payload);
}

/// XOR of `p` computed by a loop.
fn xor_bytes(p: &Vec<u8>) -> (x: u8)
    ensures
        x == xor_all(p@),
{
    let mut x: u8 = 0;
    let mut i: usize = 0;
    while i < p.len()
        invariant
            i <= p.len(),
            x == xor_all(p@.take(i as int)),
        decreases p.len() - i,
    {
        assert(p@.take(i + 1).drop_last() =~= p@.take(i as int));
        x = x ^ p[i];
        i = i + 1;
    }
    assert(p@.take(p.len() as int) =~= p@);
    x
}

/// Appends the XOR checksum to `p`.
fn close_packet(p: &mut Vec<u8>)
    ensures
        final(p)@ == with_checksum(old(p)@),
{
    let x = xor_bytes(p);
    p.push(x);
}

/// A BLE line: `payload` cut or zero-padded to 19 bytes, then the XOR of those 19.
pub fn ble_packet(payload: &[u8]) -> (p: Vec<u8>)
    ensures
        p@ == spec_ble_packet(payload@),
        p@.len() == 20,
{
    let mut p: Vec<u8> = Vec::new();
    let mut i: usize = 0;
    while i < 19
        invariant
            i <= 19,
            p@.len() == i,
            forall|j: int| 0 <= j < i ==> p@[j] == resize19(payload@)[j],
        decreases 19 - i,
    {
        if i < payload.len() {
            p.push(payload[i]);
        } else {
            p.push(0);
        }
        i = i + 1;
    }
    assert(p@ =~= resize19(payload@));
    close_packet(&mut p);
    p
}

/// A razer packet `BB 00 <len> <body...> <xor>`, where `len` is the number of body
/// bytes after the command byte (taken modulo 256).
pub fn razer_packet(body: &[u8]) -> (p: Vec<u8>)
    requires
        body@.len() >= 1,
    ensures
        p@ == spec_razer_packet(body@),
{
    let len_byte: u8 = ((body.len() - 1) % 256) as u8;
    let mut p: Vec<u8> = vec![0xBB, 0x00, len_byte];
    let ghost head = p@;
    assert(head =~= razer_header(body@));
    let mut i: usize = 0;
    while i < body.len()
        invariant
            i <= body.len(),
            p@ =~= head + body@.take(i as int),
        decreases body.len() - i,
    {
        p.push(body[i]);
        i = i + 1;
        assert(p@ =~= head + body@.take(i as int));
    }
    assert(body@.take(body.len() as int) =~= body@);
    close_packet(&mut p);
    p
}

/// The razer frame painting one colour per segment: `B0 01 <n> r g b ...` framed by
/// [`razer_packet`] (the count is taken modulo 256).
pub fn razer_colors(colors: &[[u8; 3]]) -> (p: Vec<u8>)
    ensures
        p@ == spec_razer_packet(razer_colors_body(colors@)),
{
    let n_byte: u8 = (colors.len() % 256) as u8;
    let mut body: Vec<u8> = vec![0xB0, 0x01, n_byte];
    let ghost head = body@;
    let mut i: usize = 0;
    while i < colors.len()
        invariant
            i <= colors.len(),
            body@ =~= head + flat_rgb(colors@.take(i as int)),
        decreases colors.len() - i,
    {
        let c = colors[i];
        body.push(c[0]);
        body.push(c[1]);
        body.push(c[2]);
        assert(colors@.take(i + 1).drop_last() =~= colors@.take(i as int));
        assert(c@ =~= seq![c[0], c[1], c[2]]);
        i = i + 1;
    }
    assert(colors@.take(colors.len() as int) =~= colors@);
    assert(body@ =~= razer_colors_body(colors@));
    razer_packet(body.as_slice())
}

} // verus!
