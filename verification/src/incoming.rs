use vstd::prelude::*;

verus! {

/// The length in bytes of a message to the controller server.
pub const SIZE: usize = 12;

/// A message to the controller server: the largest thread count the region
/// may use, the region's id, and the score of the last run, carried as the
/// bits of an `f32`.
#[derive(Clone, Copy, Debug, PartialEq, Eq, Structural)]
pub struct Incoming {
    pub max: i32,
    pub uid: i32,
    pub val_bits: u32,
}

/// The four bytes of `b` from `at` on, read as an unsigned word with the
/// least significant byte first.
pub open spec fn word_at(b: Seq<u8>, at: int) -> u32 {
    (b[at] + 256 * b[at + 1] + 65536 * b[at + 2] + 16777216 * b[at + 3]) as u32
}

/// Byte `k` (0 to 3, least significant first) of the word `w`.
pub open spec fn byte_of(w: u32, k: int) -> u8 {
    if k == 0 {
        (w % 256) as u8
    } else if k == 1 {
        ((w / 256) % 256) as u8
    } else if k == 2 {
        ((w / 65536) % 256) as u8
    } else {
        (w / 16777216) as u8
    }
}

/// The message that the bytes `b` hold: the fields in their order, each in
/// four bytes, least significant first.
pub open spec fn decoded(b: Seq<u8>) -> Incoming {
    Incoming { max: word_at(b, 0) as i32, uid: word_at(b, 4) as i32, val_bits: word_at(b, 8) }
}

/// The bytes of the message `m`, as `decoded` reads them.
pub open spec fn encoded(m: Incoming) -> Seq<u8> {
    Seq::new(12, |i: int| byte_of(if i < 4 { m.max as u32 } else if i < 8 { m.uid as u32 } else { m.val_bits }, i % 4))
}

fn word_from(b0: u8, b1: u8, b2: u8, b3: u8) -> (w: u32)
    ensures
        w == (b0 + 256 * b1 + 65536 * b2 + 16777216 * b3) as u32,
{
    assert(b0 + 256 * b1 + 65536 * b2 + 16777216 * b3 <= u32::MAX) by (nonlinear_arith)
        requires
            b0 <= 255,
            b1 <= 255,
            b2 <= 255,
            b3 <= 255,
    ;
    b0 as u32 + 256 * b1 as u32 + 65536 * b2 as u32 + 16777216 * b3 as u32
}

proof fn lemma_word_bytes(w: u32)
    ensures
        (byte_of(w, 0) + 256 * byte_of(w, 1) + 65536 * byte_of(w, 2) + 16777216 * byte_of(w, 3)) as u32 == w,
{
    assert(w == (w % 256) + 256 * ((w / 256) % 256) + 65536 * ((w / 65536) % 256) + 16777216 * (w / 16777216)) by (bit_vector);
    assert(w / 16777216 < 256) by (bit_vector);
}

proof fn lemma_word_signed(x: i32)
    ensures
        (x as u32) as i32 == x,
{
    assert((x as u32) as i32 == x) by (bit_vector);
}

impl Incoming {
    /// The message's bytes: `max`, `uid` and the score's bits, four bytes
    /// each, least significant first.
    pub fn to_bytes(self) -> (r: [u8; 12])
        ensures
            r@ == encoded(self),
            decoded(r@) == self,
    {
        let m = self.max as u32;
        let u = self.uid as u32;
        let v = self.val_bits;
        let r: [u8; 12] = [
            (m % 256) as u8,
            ((m / 256) % 256) as u8,
            ((m / 65536) % 256) as u8,
            (m / 16777216) as u8,
            (u % 256) as u8,
            ((u / 256) % 256) as u8,
            ((u / 65536) % 256) as u8,
            (u / 16777216) as u8,
            (v % 256) as u8,
            ((v / 256) % 256) as u8,
            ((v / 65536) % 256) as u8,
            (v / 16777216) as u8,
        ];
        proof {
            assert(r@ =~= encoded(self));
            lemma_decode_encode(self);
        }
        r
    }

    /// The message that `buffer` holds.
    pub fn from_bytes(buffer: [u8; 12]) -> (m: Incoming)
        ensures
            m == decoded(buffer@),
    {
        let b = buffer;
        let max = word_from(b[0], b[1], b[2], b[3]);
        let uid = word_from(b[4], b[5], b[6], b[7]);
        let val_bits = word_from(b[8], b[9], b[10], b[11]);
        Incoming { max: max as i32, uid: uid as i32, val_bits }
    }
}

impl From<[u8; 12]> for Incoming {
    fn from(buffer: [u8; 12]) -> (m: Incoming) {
        Incoming::from_bytes(buffer)
    }
}

impl vstd::std_specs::convert::FromSpecImpl<[u8; 12]> for Incoming {
    open spec fn obeys_from_spec() -> bool {
        true
    }

    open spec fn from_spec(buffer: [u8; 12]) -> Incoming {
        decoded(buffer@)
    }
}

/// Writing a message and reading the bytes back gives the message again.
pub proof fn lemma_decode_encode(m: Incoming)
    ensures
        decoded(encoded(m)) == m,
{
    lemma_word_bytes(m.max as u32);
    lemma_word_bytes(m.uid as u32);
    lemma_word_bytes(m.val_bits);
    lemma_word_signed(m.max);
    lemma_word_signed(m.uid);
    let e = encoded(m);
    assert(e[0] == byte_of(m.max as u32, 0));
    assert(e[1] == byte_of(m.max as u32, 1));
    assert(e[2] == byte_of(m.max as u32, 2));
    assert(e[3] == byte_of(m.max as u32, 3));
    assert(e[4] == byte_of(m.uid as u32, 0));
    assert(e[5] == byte_of(m.uid as u32, 1));
    assert(e[6] == byte_of(m.uid as u32, 2));
    assert(e[7] == byte_of(m.uid as u32, 3));
    assert(e[8] == byte_of(m.val_bits, 0));
    assert(e[9] == byte_of(m.val_bits, 1));
    assert(e[10] == byte_of(m.val_bits, 2));
    assert(e[11] == byte_of(m.val_bits, 3));
}

proof fn lemma_word_unsigned(w: u32)
    ensures
        ((w as i32) as u32) == w,
{
    assert(((w as i32) as u32) == w) by (bit_vector);
}

proof fn lemma_bytes_word(b0: u8, b1: u8, b2: u8, b3: u8)
    ensures
        ({
            let w = (b0 + 256 * b1 + 65536 * b2 + 16777216 * b3) as u32;
            &&& byte_of(w, 0) == b0
            &&& byte_of(w, 1) == b1
            &&& byte_of(w, 2) == b2
            &&& byte_of(w, 3) == b3
        }),
{
    let w = (b0 + 256 * b1 + 65536 * b2 + 16777216 * b3) as u32;
    assert(w % 256 == b0 && (w / 256) % 256 == b1 && (w / 65536) % 256 == b2 && w / 16777216 == b3)
        by (bit_vector)
        requires
            w == (b0 + 256 * b1 + 65536 * b2 + 16777216 * b3) as u32,
    ;
}

/// The layout of a message: its three fields in order, four bytes each, the
/// least significant byte first.  Byte `k` of a field's four is the field's
/// unsigned value divided by `256` to the `k`, modulo `256`; and reading
/// bytes gives each field as the sum of its bytes, each weighted by `256` to
/// its place.
pub proof fn lemma_fields_least_significant_first(m: Incoming, b: Seq<u8>)
    requires
        b.len() == SIZE,
    ensures
        encoded(m).len() == SIZE,
        encoded(m)[0] == (m.max as u32) % 256,
        encoded(m)[1] == (m.max as u32 / 256) % 256,
        encoded(m)[2] == (m.max as u32 / 65536) % 256,
        encoded(m)[3] == (m.max as u32 / 16777216) % 256,
        encoded(m)[4] == (m.uid as u32) % 256,
        encoded(m)[5] == (m.uid as u32 / 256) % 256,
        encoded(m)[6] == (m.uid as u32 / 65536) % 256,
        encoded(m)[7] == (m.uid as u32 / 16777216) % 256,
        encoded(m)[8] == m.val_bits % 256,
        encoded(m)[9] == (m.val_bits / 256) % 256,
        encoded(m)[10] == (m.val_bits / 65536) % 256,
        encoded(m)[11] == (m.val_bits / 16777216) % 256,
        decoded(b).max as u32 == b[0] + 256 * b[1] + 65536 * b[2] + 16777216 * b[3],
        decoded(b).uid as u32 == b[4] + 256 * b[5] + 65536 * b[6] + 16777216 * b[7],
        decoded(b).val_bits == b[8] + 256 * b[9] + 65536 * b[10] + 16777216 * b[11],
{
    let e = encoded(m);
    let mx = m.max as u32;
    let ux = m.uid as u32;
    let vx = m.val_bits;
    assert(mx / 16777216 < 256 && ux / 16777216 < 256 && vx / 16777216 < 256) by (bit_vector);
    assert(e[0] == byte_of(mx, 0));
    assert(e[1] == byte_of(mx, 1));
    assert(e[2] == byte_of(mx, 2));
    assert(e[3] == byte_of(mx, 3));
    assert(e[4] == byte_of(ux, 0));
    assert(e[5] == byte_of(ux, 1));
    assert(e[6] == byte_of(ux, 2));
    assert(e[7] == byte_of(ux, 3));
    assert(e[8] == byte_of(vx, 0));
    assert(e[9] == byte_of(vx, 1));
    assert(e[10] == byte_of(vx, 2));
    assert(e[11] == byte_of(vx, 3));
    lemma_word_bytes(mx);
    lemma_word_unsigned(word_at(b, 0));
    lemma_word_unsigned(word_at(b, 4));
    assert(b[0] + 256 * b[1] + 65536 * b[2] + 16777216 * b[3] <= u32::MAX) by (nonlinear_arith)
        requires
            b[0] <= 255,
            b[1] <= 255,
            b[2] <= 255,
            b[3] <= 255,
    ;
    assert(b[4] + 256 * b[5] + 65536 * b[6] + 16777216 * b[7] <= u32::MAX) by (nonlinear_arith)
        requires
            b[4] <= 255,
            b[5] <= 255,
            b[6] <= 255,
            b[7] <= 255,
    ;
    assert(b[8] + 256 * b[9] + 65536 * b[10] + 16777216 * b[11] <= u32::MAX) by (nonlinear_arith)
        requires
            b[8] <= 255,
            b[9] <= 255,
            b[10] <= 255,
            b[11] <= 255,
    ;
}

/// Reading a message's bytes and writing the message again gives the same
/// bytes: every twelve bytes are the layout of exactly one message.
pub proof fn lemma_encode_decode(b: Seq<u8>)
    requires
        b.len() == SIZE,
    ensures
        encoded(decoded(b)) == b,
{
    let m = decoded(b);
    lemma_bytes_word(b[0], b[1], b[2], b[3]);
    lemma_bytes_word(b[4], b[5], b[6], b[7]);
    lemma_bytes_word(b[8], b[9], b[10], b[11]);
    lemma_word_unsigned(word_at(b, 0));
    lemma_word_unsigned(word_at(b, 4));
    let e = encoded(m);
    assert(e =~= b) by {
        assert forall|i: int| 0 <= i < 12 implies e[i] == b[i] by {
            if i < 4 {
                assert(e[i] == byte_of(word_at(b, 0), i % 4));
            } else if i < 8 {
                assert(e[i] == byte_of(word_at(b, 4), i % 4));
            } else {
                assert(e[i] == byte_of(word_at(b, 8), i % 4));
            }
        }
    }
}

} // verus!
