//! Canonical byte encoding of a record and the digest that links it to its
//! predecessor.
//!
//! A record's message is the concatenation of seven frames, one per field,
//! in the order id, name, latitude, longitude, sensor type, creation time,
//! previous hash. A frame is the decimal byte length of the field, a colon,
//! then the field's UTF-8 bytes; the id is rendered in decimal with a leading
//! `-` when negative. Framing makes the concatenation unambiguous: distinct
//! field tuples always give distinct messages.
use vstd::prelude::*;
use vstd::utf8::encode_utf8;
use vstd::string::StringSliceAdditionalSpecFns;

verus! {

/// ASCII byte of the colon that ends a frame's length.
pub const COLON: u8 = 58;

/// ASCII byte of the minus sign of a negative id.
pub const MINUS: u8 = 45;

/// ASCII digits of `n` in base ten, most significant first, no leading zeros.
pub open spec fn decimal_digits(n: nat) -> Seq<u8>
    decreases n,
{
    if n < 10 {
        seq![(48 + n) as u8]
    } else {
        decimal_digits(n / 10).push((48 + n % 10) as u8)
    }
}

/// ASCII decimal rendering of a signed integer.
pub open spec fn decimal_text(i: int) -> Seq<u8> {
    if i < 0 {
        seq![MINUS] + decimal_digits((-i) as nat)
    } else {
        decimal_digits(i as nat)
    }
}

/// A length-prefixed frame holding `b`.
#[verifier::opaque]
pub open spec fn frame(b: Seq<u8>) -> Seq<u8> {
    decimal_digits(b.len()) + seq![COLON] + b
}

/// The frame of a text field.
pub open spec fn text_frame(s: Seq<char>) -> Seq<u8> {
    frame(encode_utf8(s))
}

/// The message that is hashed for one record, given the hash it links to.
pub open spec fn record_message(
    id: int,
    name: Seq<char>,
    lat: Seq<char>,
    lng: Seq<char>,
    sensor_type: Seq<char>,
    created_at: Seq<char>,
    previous_hash: Seq<char>,
) -> Seq<u8> {
    frame(decimal_text(id)) + text_frame(name) + text_frame(lat) + text_frame(lng) + text_frame(
        sensor_type,
    ) + text_frame(created_at) + text_frame(previous_hash)
}

/// Value of a sequence of ASCII digits read in base ten.
pub open spec fn digits_value(s: Seq<u8>) -> int
    decreases s.len(),
{
    if s.len() == 0 {
        0
    } else {
        digits_value(s.drop_last()) * 10 + (s.last() - 48)
    }
}

/// Decimal digits are non-empty, are ASCII digits, and read back as their value.
pub proof fn lemma_decimal_digits(n: nat)
    ensures
        decimal_digits(n).len() >= 1,
        forall|i: int| 0 <= i < decimal_digits(n).len() ==> 48 <= #[trigger] decimal_digits(n)[i] <= 57,
        digits_value(decimal_digits(n)) == n,
    decreases n,
{
    if n < 10 {
        assert(decimal_digits(n).drop_last() =~= Seq::<u8>::empty());
        assert(decimal_digits(n).last() == (48 + n) as u8);
        assert(((48 + n) as u8) - 48 == n);
        assert(digits_value(decimal_digits(n).drop_last()) == 0);
    } else {
        lemma_decimal_digits(n / 10);
        assert(decimal_digits(n).drop_last() =~= decimal_digits(n / 10));
        assert(decimal_digits(n).last() == (48 + n % 10) as u8);
        assert(((48 + n % 10) as u8) - 48 == n % 10);
        assert(n == (n / 10) * 10 + n % 10);
        assert(digits_value(decimal_digits(n)) == digits_value(decimal_digits(n / 10)) * 10 + (
        n % 10));
    }
}

/// Distinct numbers have distinct decimal digits.
pub proof fn lemma_decimal_digits_injective(a: nat, b: nat)
    requires
        decimal_digits(a) == decimal_digits(b),
    ensures
        a == b,
{
    lemma_decimal_digits(a);
    lemma_decimal_digits(b);
}

/// Distinct integers have distinct decimal renderings.
pub proof fn lemma_decimal_text_injective(a: int, b: int)
    requires
        decimal_text(a) == decimal_text(b),
    ensures
        a == b,
{
    if a < 0 {
        lemma_decimal_digits((-a) as nat);
    } else {
        lemma_decimal_digits(a as nat);
    }
    if b < 0 {
        lemma_decimal_digits((-b) as nat);
    } else {
        lemma_decimal_digits(b as nat);
    }
    if a < 0 && b < 0 {
        assert(decimal_digits((-a) as nat) =~= decimal_text(a).drop_first());
        assert(decimal_digits((-b) as nat) =~= decimal_text(b).drop_first());
        lemma_decimal_digits_injective((-a) as nat, (-b) as nat);
    } else if a >= 0 && b >= 0 {
        lemma_decimal_digits_injective(a as nat, b as nat);
    } else if a < 0 {
        assert(decimal_text(a)[0] == MINUS);
        assert(decimal_text(b)[0] != MINUS);
    } else {
        assert(decimal_text(b)[0] == MINUS);
        assert(decimal_text(a)[0] != MINUS);
    }
}

/// A frame at the head of a message is read back unambiguously: equal
/// messages that start with frames start with the same frame.
pub proof fn lemma_frame_split(a: Seq<u8>, x: Seq<u8>, b: Seq<u8>, y: Seq<u8>)
    requires
        frame(a) + x == frame(b) + y,
    ensures
        a == b,
        x == y,
{
    reveal(frame);
    let m = frame(a) + x;
    let da = decimal_digits(a.len());
    let db = decimal_digits(b.len());
    lemma_decimal_digits(a.len());
    lemma_decimal_digits(b.len());
    if da.len() < db.len() {
        assert(m[da.len() as int] == COLON);
        assert(m[da.len() as int] == db[da.len() as int]);
    }
    if db.len() < da.len() {
        assert(m[db.len() as int] == COLON);
        assert(m[db.len() as int] == da[db.len() as int]);
    }
    assert(da.len() == db.len());
    assert(da =~= m.subrange(0, da.len() as int));
    assert(db =~= m.subrange(0, db.len() as int));
    lemma_decimal_digits_injective(a.len(), b.len());
    let start: int = da.len() as int + 1;
    assert(a =~= m.subrange(start, start + a.len()));
    assert(b =~= m.subrange(start, start + b.len()));
    assert(x =~= m.subrange(start + a.len(), m.len() as int));
    assert(y =~= m.subrange(start + b.len(), m.len() as int));
}

/// Text frames split unambiguously too.
pub proof fn lemma_text_frame_split(a: Seq<char>, x: Seq<u8>, b: Seq<char>, y: Seq<u8>)
    requires
        text_frame(a) + x == text_frame(b) + y,
    ensures
        a == b,
        x == y,
{
    lemma_frame_split(encode_utf8(a), x, encode_utf8(b), y);
    vstd::utf8::encode_utf8_decode_utf8(a);
    vstd::utf8::encode_utf8_decode_utf8(b);
}

/// Distinct field tuples give distinct messages.
pub proof fn lemma_record_message_injective(
    id1: int, name1: Seq<char>, lat1: Seq<char>, lng1: Seq<char>, sensor_type1: Seq<char>,
    created_at1: Seq<char>, previous_hash1: Seq<char>,
    id2: int, name2: Seq<char>, lat2: Seq<char>, lng2: Seq<char>, sensor_type2: Seq<char>,
    created_at2: Seq<char>, previous_hash2: Seq<char>,
)
    requires
        record_message(id1, name1, lat1, lng1, sensor_type1, created_at1, previous_hash1)
            == record_message(id2, name2, lat2, lng2, sensor_type2, created_at2, previous_hash2),
    ensures
        id1 == id2,
        name1 == name2,
        lat1 == lat2,
        lng1 == lng2,
        sensor_type1 == sensor_type2,
        created_at1 == created_at2,
        previous_hash1 == previous_hash2,
{
    let e = Seq::<u8>::empty();
    let r6a = text_frame(previous_hash1);
    let r6b = text_frame(previous_hash2);
    let r5a = text_frame(created_at1) + r6a;
    let r5b = text_frame(created_at2) + r6b;
    let r4a = text_frame(sensor_type1) + r5a;
    let r4b = text_frame(sensor_type2) + r5b;
    let r3a = text_frame(lng1) + r4a;
    let r3b = text_frame(lng2) + r4b;
    let r2a = text_frame(lat1) + r3a;
    let r2b = text_frame(lat2) + r3b;
    let r1a = text_frame(name1) + r2a;
    let r1b = text_frame(name2) + r2b;
    assert(record_message(id1, name1, lat1, lng1, sensor_type1, created_at1, previous_hash1)
        =~= frame(decimal_text(id1)) + r1a);
    assert(record_message(id2, name2, lat2, lng2, sensor_type2, created_at2, previous_hash2)
        =~= frame(decimal_text(id2)) + r1b);
    lemma_frame_split(decimal_text(id1), r1a, decimal_text(id2), r1b);
    lemma_decimal_text_injective(id1, id2);
    lemma_text_frame_split(name1, r2a, name2, r2b);
    lemma_text_frame_split(lat1, r3a, lat2, r3b);
    lemma_text_frame_split(lng1, r4a, lng2, r4b);
    lemma_text_frame_split(sensor_type1, r5a, sensor_type2, r5b);
    lemma_text_frame_split(created_at1, r6a, created_at2, r6b);
    assert(r6a =~= r6a + e);
    assert(r6b =~= r6b + e);
    lemma_text_frame_split(previous_hash1, e, previous_hash2, e);
}

/// The SHA-256 digest of a message, as 64 lowercase hexadecimal digits.
pub uninterp spec fn sha256_hex(msg: Seq<u8>) -> Seq<char>;

/// Relies on `sha2::Sha256::digest` for the SHA-256 digest of `msg`, and on the
/// `LowerHex` impl of `generic_array::GenericArray` to render its 32 bytes as
/// two zero-padded lowercase hexadecimal digits each.
#[verifier::external_body]
fn sha256_lower_hex(msg: &[u8]) -> (r: String)
    ensures
        r@ == sha256_hex(msg@),
        r@.len() == 64,
{
    format!("{:x}", <sha2::Sha256 as sha2::Digest>::digest(msg))
}

/// Appends the decimal digits of `n` to `out`.
pub fn push_decimal_digits(n: u64, out: &mut Vec<u8>)
    ensures
        final(out)@ == old(out)@ + decimal_digits(n as nat),
    decreases n,
{
    if n >= 10 {
        push_decimal_digits(n / 10, out);
    }
    out.push((48 + n % 10) as u8);
    proof {
        if n < 10 {
            assert(decimal_digits(n as nat) =~= seq![(48 + n) as u8]);
        }
    }
    assert(final(out)@ =~= old(out)@ + decimal_digits(n as nat));
}

/// Appends a frame holding `b` to `out`.
fn push_frame(out: &mut Vec<u8>, b: &[u8])
    ensures
        final(out)@ == old(out)@ + frame(b@),
{
    push_decimal_digits(b.len() as u64, out);
    out.push(COLON);
    let ghost head = out@;
    let mut i: usize = 0;
    while i < b.len()
        invariant
            i <= b@.len(),
            out@ == head + b@.subrange(0, i as int),
        decreases b@.len() - i,
    {
        out.push(b[i]);
        i += 1;
        assert(out@ =~= head + b@.subrange(0, i as int));
    }
    assert(b@.subrange(0, b@.len() as int) =~= b@);
    reveal(frame);
    assert(final(out)@ =~= old(out)@ + frame(b@));
}

/// Appends the frame of a text field to `out`.
fn push_text_frame(out: &mut Vec<u8>, s: &str)
    ensures
        final(out)@ == old(out)@ + text_frame(s@),
{
    push_frame(out, s.as_bytes());
}

/// Appends the frame of an id's decimal rendering to `out`.
fn push_id_frame(out: &mut Vec<u8>, id: i64)
    ensures
        final(out)@ == old(out)@ + frame(decimal_text(id as int)),
{
    let mut text: Vec<u8> = Vec::new();
    if id < 0 {
        text.push(MINUS);
        let magnitude: u64 = ((-(id + 1)) as u64) + 1;
        push_decimal_digits(magnitude, &mut text);
    } else {
        push_decimal_digits(id as u64, &mut text);
    }
    assert(text@ =~= decimal_text(id as int));
    push_frame(out, text.as_slice());
}

/// The canonical message of a record linked to `previous_hash`.
pub fn record_message_bytes(
    id: i64,
    name: &str,
    lat: &str,
    lng: &str,
    sensor_type: &str,
    created_at: &str,
    previous_hash: &str,
) -> (r: Vec<u8>)
    ensures
        r@ == record_message(id as int, name@, lat@, lng@, sensor_type@, created_at@, previous_hash@),
{
    let mut out: Vec<u8> = Vec::new();
    push_id_frame(&mut out, id);
    push_text_frame(&mut out, name);
    push_text_frame(&mut out, lat);
    push_text_frame(&mut out, lng);
    push_text_frame(&mut out, sensor_type);
    push_text_frame(&mut out, created_at);
    push_text_frame(&mut out, previous_hash);
    assert(out@ =~= record_message(id as int, name@, lat@, lng@, sensor_type@, created_at@, previous_hash@));
    out
}

/// The hash of a record linked to `previous_hash`: the SHA-256 digest of its
/// canonical message, in lowercase hexadecimal.
pub fn calculate_hash(
    id: i64,
    name: &str,
    lat: &str,
    lng: &str,
    sensor_type: &str,
    created_at: &str,
    previous_hash: &str,
) -> (r: String)
    ensures
        r@ == sha256_hex(record_message(id as int, name@, lat@, lng@, sensor_type@, created_at@, previous_hash@)),
        r@.len() == 64,
{
    let msg = record_message_bytes(id, name, lat, lng, sensor_type, created_at, previous_hash);
    sha256_lower_hex(msg.as_slice())
}

} // verus!
