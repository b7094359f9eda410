//! API keys: an id, a secret, and the hash by which the secret is recognised.
use vstd::prelude::*;

verus! {

/// The lower-case hexadecimal digit of a number below sixteen.
pub open spec fn hex_char(n: nat) -> char {
    "0123456789abcdef"@[(n % 16) as int]
}

/// A number in hexadecimal, with exactly `width` digits.
pub open spec fn hex_digits(n: nat, width: nat) -> Seq<char>
    decreases width,
{
    if width == 0 {
        Seq::empty()
    } else {
        hex_digits(n / 16, (width - 1) as nat).push(hex_char(n % 16))
    }
}

/// The id of a key as it is written: eight hexadecimal digits.
pub open spec fn id_text(id: u32) -> Seq<char> {
    hex_digits(id as nat, 8)
}

/// Bytes in hexadecimal, two digits each.
pub open spec fn hex_text(bytes: Seq<u8>) -> Seq<char>
    decreases bytes.len(),
{
    if bytes.len() == 0 {
        Seq::empty()
    } else {
        hex_text(bytes.drop_last()) + hex_digits(bytes.last() as nat, 2)
    }
}

fn hex_digit(n: u32) -> (r: char)
    requires
        n < 16,
    ensures
        r == hex_char(n as nat),
{
    proof {
        reveal_strlit("0123456789abcdef");
    }
    match n {
        0 => '0',
        1 => '1',
        2 => '2',
        3 => '3',
        4 => '4',
        5 => '5',
        6 => '6',
        7 => '7',
        8 => '8',
        9 => '9',
        10 => 'a',
        11 => 'b',
        12 => 'c',
        13 => 'd',
        14 => 'e',
        _ => 'f',
    }
}

/// Writes a number in hexadecimal, with exactly `width` digits.
pub fn hex(n: u32, width: u32) -> (r: String)
    ensures
        r@ == hex_digits(n as nat, width as nat),
    decreases width,
{
    if width == 0 {
        String::new()
    } else {
        let mut out = hex(n / 16, width - 1);
        out.push(hex_digit(n % 16));
        out
    }
}

/// Writes bytes in hexadecimal.
pub fn hex_of(bytes: &Vec<u8>) -> (r: String)
    ensures
        r@ == hex_text(bytes@),
{
    let mut out = String::new();
    let mut i: usize = 0;
    while i < bytes.len()
        invariant
            i <= bytes@.len(),
            out@ == hex_text(bytes@.take(i as int)),
        decreases bytes@.len() - i,
    {
        let ghost before = out@;
        out.push(hex_digit((bytes[i] / 16) as u32));
        out.push(hex_digit((bytes[i] % 16) as u32));
        proof {
            let b = bytes@[i as int] as nat;
            reveal_with_fuel(hex_digits, 3);
            assert(hex_digits(b, 2) =~= seq![hex_char(b / 16), hex_char(b % 16)]);
            assert(out@ =~= before + hex_digits(b, 2));
            assert(bytes@.take(i + 1).drop_last() =~= bytes@.take(i as int));
        }
        i = i + 1;
    }
    assert(bytes@.take(i as int) =~= bytes@);
    out
}

/// The SHA-256 digest of some bytes.
pub uninterp spec fn sha256_digest(data: Seq<u8>) -> Seq<u8>;

/// Hashes bytes with `openssl::hash::hash` and its `MessageDigest::sha256`. Where
/// the call succeeds, what it returns is the digest of the bytes, thirty-two bytes
/// long; where it fails, the text is the error's printed form. Whether it succeeds
/// depends on the OpenSSL that is installed, and is left open.
#[verifier::external_body]
fn sha256(data: &Vec<u8>) -> (r: Result<Vec<u8>, String>)
    ensures
        r matches Ok(d) ==> d@ == sha256_digest(data@) && d@.len() == 32,
{
    openssl::hash::hash(openssl::hash::MessageDigest::sha256(), data.as_slice())
        .map(|d| d.to_vec())
        .map_err(|e| e.to_string())
}

/// The SHA-256 digest of some bytes in hexadecimal, or why it could not be
/// computed.
pub fn sha256_hex(data: &Vec<u8>) -> (r: Result<String, String>)
    ensures
        r matches Ok(h) ==> h@ == hex_text(sha256_digest(data@)),
{
    digest_text(sha256(data))
}

/// An API key: its id, and the secret that proves who holds it.
#[derive(Debug)]
pub struct ApiKey {
    pub key_id: u32,
    pub secret: Vec<u8>,
}

impl ApiKey {
    /// A key of the given id and secret.
    pub fn new(key_id: u32, secret: Vec<u8>) -> (r: ApiKey)
        ensures
            r.key_id == key_id,
            r.secret@ == secret@,
    {
        ApiKey { key_id, secret }
    }

    /// The id, as eight hexadecimal digits.
    pub fn key_id_hex(&self) -> (r: String)
        ensures
            r@ == id_text(self.key_id),
    {
        hex(self.key_id, 8)
    }

    /// The secret.
    pub fn secret_bytes(&self) -> (r: &Vec<u8>)
        ensures
            r@ == self.secret@,
    {
        &self.secret
    }

    /// The hash of the secret, in hexadecimal.
    pub fn secret_hash(&self) -> (r: Result<String, String>)
        ensures
            r matches Ok(h) ==> h@ == hex_text(sha256_digest(self.secret@)),
    {
        sha256_hex(&self.secret)
    }
}

/// What came of hashing, with a digest in hexadecimal: a failure stays the failure that
/// it was.
pub fn digest_text(digest: Result<Vec<u8>, String>) -> (r: Result<String, String>)
    ensures
        match digest {
            Ok(d) => r matches Ok(h) && h@ == hex_text(d@),
            Err(m) => r matches Err(e) && e@ == m@,
        },
{
    match digest {
        Ok(d) => Ok(hex_of(&d)),
        Err(e) => Err(e),
    }
}

/// Two ids that are written alike are the same id.
pub proof fn law_id_text_is_unique(a: u32, b: u32)
    requires
        id_text(a) == id_text(b),
    ensures
        a == b,
{
    assert(pow16(8) == 0x1_0000_0000) by {
        reveal_with_fuel(pow16, 9);
    }
    lemma_hex_digits_inverse(a as nat, b as nat, 8);
}

spec fn pow16(width: nat) -> nat
    decreases width,
{
    if width == 0 {
        1
    } else {
        16 * pow16((width - 1) as nat)
    }
}

proof fn lemma_hex_digits_inverse(a: nat, b: nat, width: nat)
    requires
        hex_digits(a, width) == hex_digits(b, width),
        a < pow16(width),
        b < pow16(width),
    ensures
        a == b,
    decreases width,
{
    if width > 0 {
        let s = hex_digits(a, width);
        let t = hex_digits(b, width);
        assert(s.drop_last() =~= hex_digits(a / 16, (width - 1) as nat));
        assert(t.drop_last() =~= hex_digits(b / 16, (width - 1) as nat));
        assert(s.last() == hex_char(a % 16) && t.last() == hex_char(b % 16));
        reveal_strlit("0123456789abcdef");
        assert(a % 16 == b % 16);
        lemma_hex_digits_inverse(a / 16, b / 16, (width - 1) as nat);
    }
}

/// A hexadecimal digit is the digit of its number, or a letter of lower case from `a` on.
pub proof fn law_hex_digit_of_a_number(n: nat)
    requires
        n < 16,
    ensures
        n < 10 ==> hex_char(n) as int == '0' as int + n,
        n >= 10 ==> hex_char(n) as int == 'a' as int + (n - 10),
{
    reveal_strlit("0123456789abcdef");
}

/// Bytes are written with two digits each, the higher first, in their order.
pub proof fn law_each_byte_is_two_hex_digits(bytes: Seq<u8>, i: int)
    requires
        0 <= i < bytes.len(),
    ensures
        hex_text(bytes).len() == 2 * bytes.len(),
        hex_text(bytes)[2 * i] == hex_char((bytes[i] / 16) as nat),
        hex_text(bytes)[2 * i + 1] == hex_char((bytes[i] % 16) as nat),
    decreases bytes.len(),
{
    let init = bytes.drop_last();
    let b = bytes.last();
    reveal_with_fuel(hex_digits, 3);
    assert(hex_digits(b as nat, 2) =~= seq![
        hex_char((b as nat / 16) % 16),
        hex_char(b as nat % 16),
    ]);
    assert((b as nat / 16) % 16 == b / 16);
    lemma_hex_text_len(init);
    if i < init.len() {
        law_each_byte_is_two_hex_digits(init, i);
        assert(init[i] == bytes[i]);
    } else {
        assert(bytes[i] == b);
    }
}

proof fn lemma_hex_text_len(bytes: Seq<u8>)
    ensures
        hex_text(bytes).len() == 2 * bytes.len(),
    decreases bytes.len(),
{
    if bytes.len() > 0 {
        lemma_hex_text_len(bytes.drop_last());
        reveal_with_fuel(hex_digits, 3);
    }
}

/// The id of a key is written with eight digits, and the last of them is its remainder by
/// sixteen; those before it are the digits of the rest.
pub proof fn law_id_is_eight_hex_digits(id: u32)
    ensures
        id_text(id).len() == 8,
        id_text(id)[7] == hex_char((id % 16) as nat),
        id_text(id)[6] == hex_char(((id / 16) % 16) as nat),
        id_text(id)[0] == hex_char((id / 0x1000_0000) as nat),
{
    reveal_with_fuel(hex_digits, 9);
    let n = id as nat;
    assert(n / 16 / 16 / 16 / 16 / 16 / 16 / 16 == n / 0x1000_0000);
}

} // verus!
