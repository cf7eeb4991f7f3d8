//! License parsing and signature verification: a key/value license text,
//! carried base64-encoded beside an RSA signature of its SHA-512 digest.
//! The parsing, field lookup, comparison logic, and padding handling are
//! verified; base64, SHA-512, big-integer arithmetic, Unicode case
//! folding, and date parsing are supplied by outside crates behind
//! trusted wrappers.

use vstd::prelude::*;
use vstd::string::*;

verus! {

/// Failures of license deserialization and validation.
#[derive(Clone, Debug)]
pub enum LicenseError {
    /// The license text is malformed, unsigned, or signed by no trusted key.
    LicenseCorrupted(String),
    /// An RSA input block exceeded the modulus.
    RsaDecryptInputLargerThanModulus,
}

/// A parsed license date: seconds since the Unix epoch, plus the UTC
/// offset the license spelled out.
#[derive(Clone, Copy, PartialEq, Eq, Structural, Debug)]
pub struct LicenseDate {
    pub unix_seconds: i64,
    pub offset_seconds: i32,
}

/// The number a big-endian byte string denotes.
pub open spec fn be_val(s: Seq<u8>) -> nat
    decreases s.len(),
{
    if s.len() == 0 {
        0
    } else {
        be_val(s.drop_last()) * 256 + s.last() as nat
    }
}

/// The minimal big-endian byte string of a number: no leading zero except
/// for the single byte representing zero itself.
pub open spec fn be_bytes_of(v: nat) -> Seq<u8>
    decreases v,
{
    if v < 256 {
        seq![v as u8]
    } else {
        be_bytes_of(v / 256).push((v % 256) as u8)
    }
}

/// Modular exponentiation on naturals (zero when the modulus is zero).
pub open spec fn pow_mod(b: nat, e: nat, m: nat) -> nat {
    if m == 0 {
        0
    } else {
        (vstd::arithmetic::power::pow(b as int, e) % (m as int)) as nat
    }
}

/// A byte string denotes zero exactly when all its bytes are zero.
pub proof fn lemma_be_val_zero(s: Seq<u8>)
    ensures
        (be_val(s) == 0) <==> (forall|i: int| 0 <= i < s.len() ==> s[i] == 0),
    decreases s.len(),
{
    if s.len() > 0 {
        lemma_be_val_zero(s.drop_last());
        if be_val(s) == 0 {
            assert(be_val(s.drop_last()) == 0 && s.last() == 0);
            assert forall|i: int| 0 <= i < s.len() implies s[i] == 0 by {
                if i < s.len() - 1 {
                    assert(s.drop_last()[i] == 0);
                }
            }
        } else {
            if forall|i: int| 0 <= i < s.len() ==> s[i] == 0 {
                assert forall|i: int| 0 <= i < s.drop_last().len() implies s.drop_last()[i]
                    == 0 by {
                    assert(s[i] == 0);
                }
                assert(be_val(s.drop_last()) == 0);
                assert(s.last() == 0);
                assert(false);
            }
        }
    }
}

/// RSA result blocks: everything up to and including the first zero byte
/// is padding; the rest is the payload. A block without a zero byte has
/// no payload.
pub open spec fn strip_pad_spec(s: Seq<u8>) -> Seq<u8>
    decreases s.len(),
{
    if s.len() == 0 {
        Seq::empty()
    } else if s.first() == 0 {
        s.drop_first()
    } else {
        strip_pad_spec(s.drop_first())
    }
}

/// A decimal numeral as `num` accepts it: an optional single leading `+`
/// (not followed by another `+`), then at least one digit, with `_`
/// separators allowed after the first character.
pub open spec fn dec_body(s: Seq<u8>) -> Seq<u8> {
    if s.len() >= 1 && s[0] == 43 && !(s.len() >= 2 && s[1] == 43) {
        s.drop_first()
    } else {
        s
    }
}

/// Whether a byte is an ASCII digit.
pub open spec fn is_dec_digit(b: u8) -> bool {
    48 <= b <= 57
}

/// Whether the byte string is a decimal numeral `num` accepts.
pub open spec fn dec_ok(s: Seq<u8>) -> bool {
    let t = dec_body(s);
    &&& t.len() >= 1
    &&& t[0] != 95
    &&& forall|i: int| 0 <= i < t.len() ==> is_dec_digit(#[trigger] t[i]) || t[i] == 95
}

/// The value of a decimal numeral body, skipping `_` separators.
pub open spec fn dec_val(t: Seq<u8>) -> nat
    decreases t.len(),
{
    if t.len() == 0 {
        0
    } else if t.last() == 95 {
        dec_val(t.drop_last())
    } else {
        dec_val(t.drop_last()) * 10 + (t.last() - 48) as nat
    }
}

/// Relies on num's BigUint::parse_bytes with radix 10 (and to_bytes_be to
/// read the result out): succeeds exactly on the decimal numerals the
/// crate accepts, yielding the minimal big-endian bytes of the value.
#[verifier::external_body]
fn parse_decimal(digits: &[u8]) -> (r: Option<Vec<u8>>)
    ensures
        match r {
            Some(v) => dec_ok(digits@) && v@ == be_bytes_of(dec_val(dec_body(digits@))),
            None => !dec_ok(digits@),
        },
{
    num::BigUint::parse_bytes(digits, 10).map(|n| n.to_bytes_be())
}

/// Relies on num's Ord for BigUint (via from_bytes_be): compares the
/// numbers the two big-endian byte strings denote.
#[verifier::external_body]
fn be_lt(a: &[u8], b: &[u8]) -> (r: bool)
    ensures
        r == (be_val(a@) < be_val(b@)),
{
    num::BigUint::from_bytes_be(a) < num::BigUint::from_bytes_be(b)
}

/// Relies on num's BigUint::modpow (with from_bytes_be/to_bytes_be
/// converting at the boundary): returns `(base ^ exponent) % modulus` as
/// minimal big-endian bytes. modpow panics on a zero modulus, which the
/// precondition rules out.
#[verifier::external_body]
fn mod_pow_bytes(base: &[u8], exponent: &[u8], modulus: &[u8]) -> (r: Vec<u8>)
    requires
        be_val(modulus@) > 0,
    ensures
        r@ == be_bytes_of(pow_mod(be_val(base@), be_val(exponent@), be_val(modulus@))),
{
    let b = num::BigUint::from_bytes_be(base);
    let e = num::BigUint::from_bytes_be(exponent);
    let m = num::BigUint::from_bytes_be(modulus);
    b.modpow(&e, &m).to_bytes_be()
}

/// The SHA-512 digest of a byte string; the result depends on the bytes
/// alone.
pub uninterp spec fn sha512_of(data: Seq<u8>) -> Seq<u8>;

/// Relies on sha2's Sha512: computes the 64-byte SHA-512 digest.
#[verifier::external_body]
fn sha512_bytes(data: &[u8]) -> (r: Vec<u8>)
    ensures
        r@ == sha512_of(data@),
        r@.len() == 64,
{
    <sha2::Sha512 as sha2::Digest>::digest(data).to_vec()
}

/// The base64 decoding of a character string, if it is valid standard
/// base64; the result depends on the characters alone.
pub uninterp spec fn base64_of(s: Seq<char>) -> Option<Seq<u8>>;

/// Relies on base64::decode (standard alphabet, padded): decodes or
/// reports that the input is not valid base64.
#[verifier::external_body]
fn base64_decode(s: &str) -> (r: Option<Vec<u8>>)
    ensures
        match r {
            Some(v) => base64_of(s@) == Some(v@),
            None => base64_of(s@) is None,
        },
{
    base64::decode(s).ok()
}

/// The Unicode case folding of a character string, as unicase performs
/// it; the result depends on the characters alone.
pub uninterp spec fn fold_of(s: Seq<char>) -> Seq<char>;

/// Relies on unicase::eq: case-insensitive comparison by Unicode case
/// folding, equivalent to comparing the folded forms.
#[verifier::external_body]
fn unicase_eq(a: &str, b: &str) -> (r: bool)
    ensures
        r == (fold_of(a@) == fold_of(b@)),
{
    unicase::eq(a, b)
}

/// The Unicode lowercasing of a character string, as str::to_lowercase
/// performs it; the result depends on the characters alone.
pub uninterp spec fn lower_of(s: Seq<char>) -> Seq<char>;

/// Relies on str::to_lowercase: the result depends on the characters
/// alone, and an empty string stays empty.
#[verifier::external_body]
fn lowercase(s: &str) -> (r: String)
    ensures
        r@ == lower_of(s@),
        s@.len() == 0 ==> r@.len() == 0,
{
    s.to_lowercase()
}

/// What chrono's RFC 3339 parser makes of a character string: the Unix
/// timestamp and UTC offset on success; the result depends on the
/// characters alone.
pub uninterp spec fn rfc3339_of(s: Seq<char>) -> Option<(int, int)>;

/// Relies on chrono's DateTime::parse_from_rfc3339 (timestamp and
/// offset read the plain values out): parses an RFC 3339 date string.
#[verifier::external_body]
fn parse_rfc3339(s: &str) -> (r: Option<LicenseDate>)
    ensures
        match r {
            Some(d) => rfc3339_of(s@) == Some((d.unix_seconds as int, d.offset_seconds as int)),
            None => rfc3339_of(s@) is None,
        },
{
    match chrono::DateTime::parse_from_rfc3339(s) {
        Ok(dt) => Some(
            LicenseDate {
                unix_seconds: dt.timestamp(),
                offset_seconds: chrono::Offset::fix(dt.offset()).local_minus_utc(),
            },
        ),
        Err(_) => None,
    }
}

/// Relies on str::from_utf8 (with to_owned converting the result): Ok
/// exactly on valid UTF-8, yielding its decoding.
#[verifier::external_body]
fn utf8_to_string(bytes: &[u8]) -> (r: Option<String>)
    ensures
        match r {
            Some(s) => vstd::utf8::valid_utf8(bytes@) && s@ == vstd::utf8::decode_utf8(bytes@),
            None => !vstd::utf8::valid_utf8(bytes@),
        },
{
    match core::str::from_utf8(bytes) {
        Ok(s) => Some(s.to_owned()),
        Err(_) => None,
    }
}

/// A public RSA key used to decrypt license signatures: modulus and
/// exponent as big-endian byte strings.
pub struct RSADecryptPublic {
    pub modulus: Vec<u8>,
    pub exponent: Vec<u8>,
}

/// A usable key: both numbers are positive.
pub open spec fn rsa_wf(k: RSADecryptPublic) -> bool {
    be_val(k.modulus@) > 0 && be_val(k.exponent@) > 0
}

/// What decrypting a block with a key yields: nothing when the block is
/// at least the modulus; otherwise the padded modular power with its
/// padding stripped.
pub open spec fn decrypt_spec(k: RSADecryptPublic, input: Seq<u8>) -> Option<Seq<u8>> {
    if be_val(input) < be_val(k.modulus@) {
        Some(
            strip_pad_spec(
                be_bytes_of(pow_mod(be_val(input), be_val(k.exponent@), be_val(k.modulus@))),
            ),
        )
    } else {
        Option::None
    }
}

/// Whether some byte of the slice is nonzero, i.e. the denoted number is
/// positive.
fn bytes_positive(s: &[u8]) -> (r: bool)
    ensures
        r == (be_val(s@) > 0),
{
    let mut i: usize = 0;
    while i < s.len()
        invariant
            i <= s@.len(),
            forall|j: int| 0 <= j < i ==> s@[j] == 0,
        decreases s@.len() - i,
    {
        if s[i] != 0 {
            proof {
                lemma_be_val_zero(s@);
            }
            return true;
        }
        i += 1;
    }
    proof {
        lemma_be_val_zero(s@);
    }
    false
}

/// Whether two byte slices hold the same bytes.
fn bytes_eq(a: &[u8], b: &[u8]) -> (r: bool)
    ensures
        r == (a@ == b@),
{
    if a.len() != b.len() {
        return false;
    }
    let mut i: usize = 0;
    while i < a.len()
        invariant
            a@.len() == b@.len(),
            i <= a@.len(),
            forall|j: int| 0 <= j < i ==> a@[j] == b@[j],
        decreases a@.len() - i,
    {
        if a[i] != b[i] {
            return false;
        }
        i += 1;
    }
    proof {
        assert(a@ =~= b@);
    }
    true
}

/// The payload of an RSA block: everything after the first zero byte.
fn strip_pad(s: &Vec<u8>) -> (r: Vec<u8>)
    ensures
        r@ == strip_pad_spec(s@),
{
    let mut i: usize = 0;
    proof {
        assert(s@.skip(0) =~= s@);
    }
    while i < s.len()
        invariant
            i <= s@.len(),
            strip_pad_spec(s@) == strip_pad_spec(s@.skip(i as int)),
            forall|j: int| 0 <= j < i ==> s@[j] != 0,
        decreases s@.len() - i,
    {
        if s[i] == 0 {
            let mut r: Vec<u8> = Vec::new();
            let mut j: usize = i + 1;
            while j < s.len()
                invariant
                    i < j <= s@.len(),
                    i < s@.len(),
                    r@ == s@.subrange(i as int + 1, j as int),
                decreases s@.len() - j,
            {
                r.push(s[j]);
                j += 1;
            }
            proof {
                assert(s@.skip(i as int).first() == 0);
                assert(strip_pad_spec(s@.skip(i as int)) =~= s@.skip(i as int).drop_first());
                assert(s@.skip(i as int).drop_first() =~= s@.subrange(i as int + 1, s@.len() as int));
                assert(r@ =~= s@.subrange(i as int + 1, s@.len() as int));
            }
            return r;
        }
        proof {
            assert(s@.skip(i as int).first() == s@[i as int]);
            assert(strip_pad_spec(s@.skip(i as int)) == strip_pad_spec(
                s@.skip(i as int).drop_first(),
            ));
            assert(s@.skip(i as int).drop_first() =~= s@.skip(i as int + 1));
        }
        i += 1;
    }
    proof {
        assert(s@.skip(s@.len() as int) =~= Seq::<u8>::empty());
        assert(strip_pad_spec(s@) =~= Seq::<u8>::empty());
    }
    Vec::new()
}

impl RSADecryptPublic {
    /// A key from big-endian modulus and exponent bytes; both must be
    /// positive.
    pub fn new(modulus: Vec<u8>, exponent: Vec<u8>) -> (r: Option<RSADecryptPublic>)
        ensures
            match r {
                Some(k) => k.modulus == modulus && k.exponent == exponent && rsa_wf(k),
                None => !(be_val(modulus@) > 0 && be_val(exponent@) > 0),
            },
    {
        if bytes_positive(modulus.as_slice()) && bytes_positive(exponent.as_slice()) {
            Some(RSADecryptPublic { modulus, exponent })
        } else {
            Option::None
        }
    }

    /// A key from decimal numerals for modulus and exponent.
    pub fn from_byte_strings(modulus: &[u8], exponent: &[u8]) -> (r: Option<RSADecryptPublic>)
        ensures
            match r {
                Some(k) => {
                    &&& rsa_wf(k)
                    &&& dec_ok(modulus@) && dec_ok(exponent@)
                    &&& be_val(k.modulus@) == dec_val(dec_body(modulus@))
                    &&& be_val(k.exponent@) == dec_val(dec_body(exponent@))
                },
                None => !dec_ok(modulus@) || !dec_ok(exponent@) || dec_val(dec_body(modulus@))
                    == 0 || dec_val(dec_body(exponent@)) == 0,
            },
    {
        let m_maybe = parse_decimal(modulus);
        let e_maybe = parse_decimal(exponent);
        match (m_maybe, e_maybe) {
            (Some(m), Some(e)) => {
                proof {
                    lemma_be_bytes_of_val(dec_val(dec_body(modulus@)));
                    lemma_be_bytes_of_val(dec_val(dec_body(exponent@)));
                }
                RSADecryptPublic::new(m, e)
            },
            _ => Option::None,
        }
    }

    /// Decrypts a signature block with the public exponent. Fails if the
    /// block is not smaller than the modulus; otherwise returns the
    /// padded power with its padding stripped.
    pub fn decrypt_public(&self, bytes: &[u8]) -> (r: Result<Vec<u8>, LicenseError>)
        requires
            rsa_wf(*self),
        ensures
            match r {
                Ok(v) => decrypt_spec(*self, bytes@) == Some(v@),
                Err(e) => e is RsaDecryptInputLargerThanModulus && decrypt_spec(
                    *self,
                    bytes@,
                ) is None,
            },
    {
        if be_lt(bytes, self.modulus.as_slice()) {
            let powed = mod_pow_bytes(bytes, self.exponent.as_slice(), self.modulus.as_slice());
            Ok(strip_pad(&powed))
        } else {
            Err(LicenseError::RsaDecryptInputLargerThanModulus)
        }
    }
}

/// The big-endian bytes of a value denote that value.
pub proof fn lemma_be_bytes_of_val(v: nat)
    ensures
        be_val(be_bytes_of(v)) == v,
    decreases v,
{
    if v < 256 {
        assert(be_bytes_of(v) =~= seq![v as u8]);
        assert(be_val(seq![v as u8]) == be_val(seq![v as u8].drop_last()) * 256 + v);
        assert(seq![v as u8].drop_last() =~= Seq::<u8>::empty());
    } else {
        lemma_be_bytes_of_val(v / 256);
        let b = be_bytes_of(v / 256);
        assert(be_bytes_of(v) == b.push((v % 256) as u8));
        assert(b.push((v % 256) as u8).drop_last() =~= b);
        assert(be_val(be_bytes_of(v)) == (v / 256) * 256 + v % 256);
        assert((v / 256) * 256 + v % 256 == v) by {
            vstd::arithmetic::div_mod::lemma_fundamental_div_mod(v as int, 256);
        }
    }
}

/// How signature validation walks the trusted keys: the first key whose
/// decryption fails aborts; the first whose decryption equals the digest
/// accepts; an exhausted key list rejects.
pub open spec fn validate_spec(keys: Seq<RSADecryptPublic>, digest: Seq<u8>, sig: Seq<u8>) -> Option<
    bool,
>
    decreases keys.len(),
{
    if keys.len() == 0 {
        Some(false)
    } else {
        match decrypt_spec(keys.first(), sig) {
            Option::None => Option::None,
            Some(d) => if d == digest {
                Some(true)
            } else {
                validate_spec(keys.drop_first(), digest, sig)
            },
        }
    }
}

/// Whether the signature, decrypted with some trusted key, equals the
/// SHA-512 digest of the data. An oversized signature block fails.
pub fn validate_signature(data: &[u8], signature: &[u8], trusted_keys: &[RSADecryptPublic]) -> (r:
    Result<bool, LicenseError>)
    requires
        forall|k: int| 0 <= k < trusted_keys@.len() ==> rsa_wf(#[trigger] trusted_keys@[k]),
    ensures
        match r {
            Ok(b) => validate_spec(trusted_keys@, sha512_of(data@), signature@) == Some(b),
            Err(e) => e is RsaDecryptInputLargerThanModulus && validate_spec(
                trusted_keys@,
                sha512_of(data@),
                signature@,
            ) is None,
        },
{
    let digest = sha512_bytes(data);
    let mut k: usize = 0;
    proof {
        assert(trusted_keys@.skip(0) =~= trusted_keys@);
    }
    while k < trusted_keys.len()
        invariant
            k <= trusted_keys@.len(),
            digest@ == sha512_of(data@),
            forall|j: int| 0 <= j < trusted_keys@.len() ==> rsa_wf(#[trigger] trusted_keys@[j]),
            validate_spec(trusted_keys@, sha512_of(data@), signature@) == validate_spec(
                trusted_keys@.skip(k as int),
                sha512_of(data@),
                signature@,
            ),
        decreases trusted_keys@.len() - k,
    {
        proof {
            assert(trusted_keys@.skip(k as int).first() == trusted_keys@[k as int]);
            assert(trusted_keys@.skip(k as int).drop_first() =~= trusted_keys@.skip(k as int + 1));
        }
        let rsa = &trusted_keys[k];
        match rsa.decrypt_public(signature) {
            Ok(decrypted) => {
                if bytes_eq(decrypted.as_slice(), digest.as_slice()) {
                    return Ok(true);
                }
            },
            Err(e) => {
                return Err(e);
            },
        }
        k += 1;
    }
    proof {
        assert(trusted_keys@.skip(trusted_keys@.len() as int).len() == 0);
    }
    Ok(false)
}

/// Whitespace that trimming removes. License fields are ASCII text, so
/// only the ASCII whitespace forms are considered.
pub open spec fn is_space_c(c: char) -> bool {
    c == ' ' || c == '\t' || c == '\r' || c == '\n'
}

/// `s` without leading whitespace.
pub open spec fn trim_start_spec(s: Seq<char>) -> Seq<char>
    decreases s.len(),
{
    if s.len() > 0 && is_space_c(s.first()) {
        trim_start_spec(s.drop_first())
    } else {
        s
    }
}

/// `s` without trailing whitespace.
pub open spec fn trim_end_spec(s: Seq<char>) -> Seq<char>
    decreases s.len(),
{
    if s.len() > 0 && is_space_c(s.last()) {
        trim_end_spec(s.drop_last())
    } else {
        s
    }
}

/// `s` without leading or trailing whitespace.
pub open spec fn trim_spec(s: Seq<char>) -> Seq<char> {
    trim_end_spec(trim_start_spec(s))
}

proof fn lemma_trim_start_all(s: Seq<char>, a: int)
    requires
        0 <= a <= s.len(),
        forall|j: int| 0 <= j < a ==> is_space_c(#[trigger] s[j]),
        a < s.len() ==> !is_space_c(s[a]),
    ensures
        trim_start_spec(s) == s.subrange(a, s.len() as int),
    decreases a,
{
    if a == 0 {
        assert(s.subrange(0, s.len() as int) =~= s);
    } else {
        assert(is_space_c(s[0]));
        let t = s.drop_first();
        assert forall|j: int| 0 <= j < a - 1 implies is_space_c(#[trigger] t[j]) by {
            assert(t[j] == s[j + 1]);
        }
        lemma_trim_start_all(t, a - 1);
        assert(t.subrange(a - 1, t.len() as int) =~= s.subrange(a, s.len() as int));
    }
}

proof fn lemma_trim_end_all(s: Seq<char>, b: int)
    requires
        0 <= b <= s.len(),
        forall|j: int| b <= j < s.len() ==> is_space_c(#[trigger] s[j]),
        b > 0 ==> !is_space_c(s[b - 1]),
    ensures
        trim_end_spec(s) == s.subrange(0, b),
    decreases s.len() - b,
{
    if b == s.len() {
        assert(s.subrange(0, b) =~= s);
    } else {
        assert(is_space_c(s.last()));
        let t = s.drop_last();
        lemma_trim_end_all(t, b);
        assert(t.subrange(0, b) =~= s.subrange(0, b));
    }
}

/// Whether a character is whitespace that trimming removes.
fn is_space_char(c: char) -> (r: bool)
    ensures
        r == is_space_c(c),
{
    c == ' ' || c == '\t' || c == '\r' || c == '\n'
}

/// The trimmed text of the character range `[from, end)` of `s`.
fn trim_range(s: &str, from: usize, end: usize) -> (r: String)
    requires
        from <= end <= s@.len(),
    ensures
        r@ == trim_spec(s@.subrange(from as int, end as int)),
{
    let mut a = from;
    loop
        invariant
            from <= a <= end,
            end <= s@.len(),
            forall|j: int| from <= j < a ==> is_space_c(#[trigger] s@[j]),
        ensures
            from <= a <= end,
            forall|j: int| from <= j < a ==> is_space_c(#[trigger] s@[j]),
            a < end ==> !is_space_c(s@[a as int]),
        decreases end - a,
    {
        if a >= end {
            break;
        }
        if !is_space_char(s.get_char(a)) {
            break;
        }
        a += 1;
    }
    let mut b = end;
    loop
        invariant
            a <= b <= end,
            end <= s@.len(),
            forall|j: int| b <= j < end ==> is_space_c(#[trigger] s@[j]),
        ensures
            a <= b <= end,
            forall|j: int| b <= j < end ==> is_space_c(#[trigger] s@[j]),
            b > a ==> !is_space_c(s@[b - 1]),
        decreases b,
    {
        if b <= a {
            break;
        }
        if !is_space_char(s.get_char(b - 1)) {
            break;
        }
        b -= 1;
    }
    let piece = s.substring_char(a, b);
    let r = piece.to_owned();
    proof {
        let sub = s@.subrange(from as int, end as int);
        let a2 = a - from;
        assert forall|j: int| 0 <= j < a2 implies is_space_c(#[trigger] sub[j]) by {
            assert(sub[j] == s@[from + j]);
        }
        if a2 < sub.len() {
            assert(sub[a2] == s@[a as int]);
        }
        lemma_trim_start_all(sub, a2);
        let u = sub.subrange(a2, sub.len() as int);
        assert(u =~= s@.subrange(a as int, end as int));
        let b2 = b - a;
        assert forall|j: int| b2 <= j < u.len() implies is_space_c(#[trigger] u[j]) by {
            assert(u[j] == s@[a + j]);
        }
        if b2 > 0 {
            assert(u[b2 - 1] == s@[b - 1]);
        }
        lemma_trim_end_all(u, b2);
        assert(u.subrange(0, b2) =~= s@.subrange(a as int, b as int));
        assert(r@ == s@.subrange(a as int, b as int));
    }
    r
}

/// The first occurrence of `c` in `s` within `[from, end)`.
pub open spec fn find_char_upto(s: Seq<char>, c: char, from: int, end: int) -> Option<int>
    decreases end - from,
{
    if from < 0 || from >= end || end > s.len() {
        Option::None
    } else if s[from] == c {
        Some(from)
    } else {
        find_char_upto(s, c, from + 1, end)
    }
}

/// Finds the first occurrence of `c` in the character range `[from, end)`.
fn find_char_in(s: &str, c: char, from: usize, end: usize) -> (r: Option<usize>)
    requires
        from <= end <= s@.len(),
    ensures
        match r {
            Some(i) => from <= i < end && find_char_upto(s@, c, from as int, end as int) == Some(
                i as int,
            ),
            None => find_char_upto(s@, c, from as int, end as int) is None,
        },
{
    let mut e = from;
    while e < end
        invariant
            from <= e <= end,
            end <= s@.len(),
            find_char_upto(s@, c, from as int, end as int) == find_char_upto(
                s@,
                c,
                e as int,
                end as int,
            ),
        decreases end - e,
    {
        if s.get_char(e) == c {
            return Some(e);
        }
        e += 1;
    }
    None
}

/// The key/value pair a line yields: the first colon splits it, and both
/// sides are trimmed; a line without a colon yields nothing.
pub open spec fn pair_for(s: Seq<char>, from: int, end: int) -> Option<(Seq<char>, Seq<char>)> {
    match find_char_upto(s, ':', from, end) {
        Some(c) => Some((trim_spec(s.subrange(from, c)), trim_spec(s.subrange(c + 1, end)))),
        Option::None => Option::None,
    }
}

/// The key/value pairs of the license text from character `from` on:
/// lines split at `\n`, each line's pair (if it has a colon) in order.
pub open spec fn license_pairs_from(s: Seq<char>, from: int) -> Seq<(Seq<char>, Seq<char>)>
    decreases s.len() - from + 1,
{
    if from < 0 || from > s.len() {
        Seq::empty()
    } else {
        let nl = match find_char_upto(s, '\n', from, s.len() as int) {
            Some(i) => i,
            Option::None => s.len() as int,
        };
        let end = if nl < from {
            from
        } else if nl > s.len() {
            s.len() as int
        } else {
            nl
        };
        let rest = license_pairs_from(s, end + 1);
        match pair_for(s, from, end) {
            Some(p) => seq![p] + rest,
            Option::None => rest,
        }
    }
}

/// The pairs a vector of owned strings denotes.
pub open spec fn view_pairs(v: Seq<(String, String)>) -> Seq<(Seq<char>, Seq<char>)> {
    v.map_values(|p: (String, String)| (p.0@, p.1@))
}

/// Parses the license text into its key/value pairs, line by line.
fn parse_pairs(s: &str) -> (pairs: Vec<(String, String)>)
    ensures
        view_pairs(pairs@) == license_pairs_from(s@, 0),
{
    let n = s.unicode_len();
    let mut pairs: Vec<(String, String)> = Vec::new();
    let mut cs: usize = 0;
    loop
        invariant_except_break
            license_pairs_from(s@, 0) == view_pairs(pairs@) + license_pairs_from(s@, cs as int),
        invariant
            n == s@.len(),
            cs <= n,
        ensures
            license_pairs_from(s@, 0) == view_pairs(pairs@),
        decreases n - cs,
    {
        let nl = find_char_in(s, '\n', cs, n);
        let end = match nl {
            Some(x) => x,
            None => n,
        };
        let ghost pairs0 = pairs@;
        let colon = find_char_in(s, ':', cs, end);
        match colon {
            Some(c) => {
                let key = trim_range(s, cs, c);
                let value = trim_range(s, c + 1, end);
                pairs.push((key, value));
            },
            None => {},
        }
        proof {
            let rest = license_pairs_from(s@, end as int + 1);
            match pair_for(s@, cs as int, end as int) {
                Some(p) => {
                    assert(license_pairs_from(s@, cs as int) == seq![p] + rest);
                    assert(pairs@ == pairs0.push((pairs@[pairs@.len() - 1])));
                    assert(view_pairs(pairs@) =~= view_pairs(pairs0).push(
                        (pairs@[pairs@.len() - 1].0@, pairs@[pairs@.len() - 1].1@),
                    ));
                    assert((pairs@[pairs@.len() - 1].0@, pairs@[pairs@.len() - 1].1@) == p);
                    assert(view_pairs(pairs0) + (seq![p] + rest) =~= (view_pairs(pairs0) + seq![p])
                        + rest);
                    assert(view_pairs(pairs0).push(p) =~= view_pairs(pairs0) + seq![p]);
                },
                Option::None => {
                    assert(license_pairs_from(s@, cs as int) == rest);
                },
            }
        }
        if end >= n {
            proof {
                assert(license_pairs_from(s@, end as int + 1) =~= Seq::empty());
                assert(view_pairs(pairs@) + Seq::empty() =~= view_pairs(pairs@));
            }
            break;
        }
        cs = end + 1;
    }
    pairs
}

/// The value of the last pair whose key case-folds to `key`, scanning
/// from the most recently parsed pair backwards (a later duplicate key
/// overrides an earlier one).
pub open spec fn get_spec(pairs: Seq<(Seq<char>, Seq<char>)>, key: Seq<char>) -> Option<Seq<char>>
    decreases pairs.len(),
{
    if pairs.len() == 0 {
        Option::None
    } else if fold_of(pairs.last().0) == fold_of(key) {
        Some(pairs.last().1)
    } else {
        get_spec(pairs.drop_last(), key)
    }
}

/// Whether `c` is one of the three separator characters.
pub open spec fn is_any_of(c: char, s1: char, s2: char, s3: char) -> bool {
    c == s1 || c == s2 || c == s3
}

/// The first occurrence of any of the separators in `[from, end)`.
pub open spec fn find_any_upto(s: Seq<char>, s1: char, s2: char, s3: char, from: int, end: int) -> Option<
    int,
>
    decreases end - from,
{
    if from < 0 || from >= end || end > s.len() {
        Option::None
    } else if is_any_of(s[from], s1, s2, s3) {
        Some(from)
    } else {
        find_any_upto(s, s1, s2, s3, from + 1, end)
    }
}

/// The text split at every occurrence of the separators, empty tokens
/// kept, from character `from` on.
pub open spec fn split_tokens_from(s: Seq<char>, s1: char, s2: char, s3: char, from: int) -> Seq<
    Seq<char>,
>
    decreases s.len() - from + 1,
{
    if from < 0 || from > s.len() {
        Seq::empty()
    } else {
        let sep = match find_any_upto(s, s1, s2, s3, from, s.len() as int) {
            Some(i) => i,
            Option::None => s.len() as int,
        };
        let end = if sep < from {
            from
        } else if sep > s.len() {
            s.len() as int
        } else {
            sep
        };
        seq![s.subrange(from, end)] + split_tokens_from(s, s1, s2, s3, end + 1)
    }
}

/// The character strings a vector of owned strings denotes.
pub open spec fn view_strs(v: Seq<String>) -> Seq<Seq<char>> {
    v.map_values(|x: String| x@)
}

/// Finds the first occurrence of any of the separators in `[from, end)`.
fn find_any_in(s: &str, s1: char, s2: char, s3: char, from: usize, end: usize) -> (r: Option<
    usize,
>)
    requires
        from <= end <= s@.len(),
    ensures
        match r {
            Some(i) => from <= i < end && find_any_upto(s@, s1, s2, s3, from as int, end as int)
                == Some(i as int),
            None => find_any_upto(s@, s1, s2, s3, from as int, end as int) is None,
        },
{
    let mut e = from;
    while e < end
        invariant
            from <= e <= end,
            end <= s@.len(),
            find_any_upto(s@, s1, s2, s3, from as int, end as int) == find_any_upto(
                s@,
                s1,
                s2,
                s3,
                e as int,
                end as int,
            ),
        decreases end - e,
    {
        let c = s.get_char(e);
        if c == s1 || c == s2 || c == s3 {
            return Some(e);
        }
        e += 1;
    }
    None
}

/// Splits the text at every occurrence of the separators, keeping empty
/// tokens.
fn split_tokens(s: &str, s1: char, s2: char, s3: char) -> (r: Vec<String>)
    ensures
        view_strs(r@) == split_tokens_from(s@, s1, s2, s3, 0),
{
    let n = s.unicode_len();
    let mut r: Vec<String> = Vec::new();
    let mut cs: usize = 0;
    loop
        invariant_except_break
            split_tokens_from(s@, s1, s2, s3, 0) == view_strs(r@) + split_tokens_from(
                s@,
                s1,
                s2,
                s3,
                cs as int,
            ),
        invariant
            n == s@.len(),
            cs <= n,
        ensures
            split_tokens_from(s@, s1, s2, s3, 0) == view_strs(r@),
        decreases n - cs,
    {
        let sep = find_any_in(s, s1, s2, s3, cs, n);
        let end = match sep {
            Some(x) => x,
            None => n,
        };
        let ghost r0 = r@;
        let tok = s.substring_char(cs, end).to_owned();
        r.push(tok);
        proof {
            let t = s@.subrange(cs as int, end as int);
            let rest = split_tokens_from(s@, s1, s2, s3, end as int + 1);
            assert(split_tokens_from(s@, s1, s2, s3, cs as int) == seq![t] + rest);
            assert(view_strs(r@) =~= view_strs(r0).push(t));
            assert(view_strs(r0).push(t) =~= view_strs(r0) + seq![t]);
            assert(view_strs(r0) + (seq![t] + rest) =~= (view_strs(r0) + seq![t]) + rest);
        }
        if end >= n {
            proof {
                assert(split_tokens_from(s@, s1, s2, s3, end as int + 1) =~= Seq::empty());
                assert(view_strs(r@) + Seq::empty() =~= view_strs(r@));
            }
            break;
        }
        cs = end + 1;
    }
    r
}

/// Whether a character is an ASCII digit.
pub open spec fn is_digit_c(c: char) -> bool {
    48 <= c as u32 <= 57
}

/// The number an all-digit character string denotes (non-digits count
/// zero).
pub open spec fn digits_val(s: Seq<char>) -> nat
    decreases s.len(),
{
    if s.len() == 0 {
        0
    } else {
        digits_val(s.drop_last()) * 10 + (if is_digit_c(s.last()) {
            (s.last() as u32 - 48) as nat
        } else {
            0nat
        })
    }
}

/// Digit prefixes denote no more than the whole string.
proof fn lemma_digits_val_mono(s: Seq<char>, k: int)
    requires
        0 <= k <= s.len(),
    ensures
        digits_val(s.take(k)) <= digits_val(s),
    decreases s.len() - k,
{
    if k == s.len() {
        assert(s.take(k) =~= s);
    } else {
        assert(s.take(k + 1).drop_last() =~= s.take(k));
        assert(digits_val(s.take(k + 1)) >= digits_val(s.take(k)));
        lemma_digits_val_mono(s, k + 1);
    }
}

/// The numeral with a single leading sign character removed.
pub open spec fn sign_body(s: Seq<char>) -> Seq<char> {
    if s.len() >= 1 && (s[0] == '-' || s[0] == '+') {
        s.drop_first()
    } else {
        s
    }
}

/// Every character is an ASCII digit.
pub open spec fn all_digits(s: Seq<char>) -> bool {
    forall|i: int| 0 <= i < s.len() ==> is_digit_c(#[trigger] s[i])
}

/// What Rust's i32 parser makes of a string: an optional sign, then at
/// least one digit, and the value must fit.
pub open spec fn parse_i32_spec(s: Seq<char>) -> Option<int> {
    let neg = s.len() >= 1 && s[0] == '-';
    let body = sign_body(s);
    if body.len() >= 1 && all_digits(body) {
        let v = if neg {
            -(digits_val(body) as int)
        } else {
            digits_val(body) as int
        };
        if i32::MIN <= v <= i32::MAX {
            Some(v)
        } else {
            Option::None
        }
    } else {
        Option::None
    }
}

/// Parses a decimal integer exactly as i32's string parser does.
fn parse_i32(s: &str) -> (r: Option<i32>)
    ensures
        match r {
            Some(v) => parse_i32_spec(s@) == Some(v as int),
            None => parse_i32_spec(s@) is None,
        },
{
    let n = s.unicode_len();
    if n == 0 {
        return None;
    }
    let first = s.get_char(0);
    let neg = first == '-';
    let start: usize = if first == '-' || first == '+' {
        1
    } else {
        0
    };
    if start >= n {
        return None;
    }
    let ghost body = sign_body(s@);
    proof {
        assert(body =~= s@.subrange(start as int, n as int));
    }
    let mut acc: u64 = 0;
    let mut i = start;
    while i < n
        invariant
            start <= i <= n,
            n == s@.len(),
            start <= 1,
            start < n,
            body == sign_body(s@),
            body =~= s@.subrange(start as int, n as int),
            forall|j: int| start <= j < i ==> is_digit_c(#[trigger] s@[j]),
            acc == digits_val(s@.subrange(start as int, i as int)),
            acc <= 2147483648u64,
        decreases n - i,
    {
        let c = s.get_char(i);
        let cv = c as u32;
        if cv < 48 || cv > 57 {
            proof {
                let bj = i as int - start as int;
                assert(body[bj] == s@[i as int]);
                assert(!is_digit_c(body[bj]));
                assert(!all_digits(body));
                assert(parse_i32_spec(s@) is None);
            }
            return None;
        }
        let d = (cv - 48) as u64;
        let acc2 = acc * 10 + d;
        proof {
            assert(s@.subrange(start as int, i as int + 1).drop_last() =~= s@.subrange(
                start as int,
                i as int,
            ));
        }
        if acc2 > 2147483648u64 {
            proof {
                assert(s@[i as int] == c && is_digit_c(s@[i as int]));
                if all_digits(body) {
                    let pre = s@.subrange(start as int, i as int + 1);
                    assert(pre.last() == s@[i as int]);
                    assert(digits_val(pre) == acc * 10 + d);
                    assert(body.take(i as int + 1 - start) =~= pre);
                    lemma_digits_val_mono(body, i as int + 1 - start);
                    assert(digits_val(body) >= acc2);
                    assert(digits_val(body) > 2147483648);
                }
                assert(parse_i32_spec(s@) is None);
            }
            return None;
        }
        acc = acc2;
        i += 1;
    }
    proof {
        assert(body =~= s@.subrange(start as int, n as int));
        assert forall|j: int| 0 <= j < body.len() implies is_digit_c(#[trigger] body[j]) by {
            assert(body[j] == s@[start + j]);
        }
    }
    if neg {
        if acc == 2147483648u64 {
            Some(i32::MIN)
        } else {
            Some(-(acc as i32))
        }
    } else {
        if acc <= 2147483647u64 {
            Some(acc as i32)
        } else {
            None
        }
    }
}

/// Finds the last pair whose key case-folds to `key`; a later duplicate
/// overrides an earlier one, as insertion into a map would.
fn get_idx(pairs: &Vec<(String, String)>, key: &str) -> (r: Option<usize>)
    ensures
        match r {
            Some(k) => k < pairs@.len() && get_spec(view_pairs(pairs@), key@) == Some(
                pairs@[k as int].1@,
            ),
            None => get_spec(view_pairs(pairs@), key@) is None,
        },
{
    let mut k = pairs.len();
    proof {
        assert(view_pairs(pairs@).take(pairs@.len() as int) =~= view_pairs(pairs@));
    }
    while k > 0
        invariant
            k <= pairs@.len(),
            get_spec(view_pairs(pairs@), key@) == get_spec(
                view_pairs(pairs@).take(k as int),
                key@,
            ),
        decreases k,
    {
        let kk = k - 1;
        proof {
            assert(view_pairs(pairs@).take(kk as int + 1).last() == (
                pairs@[kk as int].0@,
                pairs@[kk as int].1@,
            ));
            assert(view_pairs(pairs@).take(kk as int + 1).drop_last() =~= view_pairs(
                pairs@,
            ).take(kk as int));
        }
        if unicase_eq(pairs[kk].0.as_str(), key) {
            return Some(kk);
        }
        k = kk;
    }
    proof {
        assert(view_pairs(pairs@).take(0).len() == 0);
    }
    None
}

/// The license's identity: the `Id` field, or failing that the `Domain`
/// field.
pub open spec fn id_of(ps: Seq<(Seq<char>, Seq<char>)>) -> Option<Seq<char>> {
    match get_spec(ps, "Id"@) {
        Some(v) => Some(v),
        Option::None => get_spec(ps, "Domain"@),
    }
}

/// The parsed date field matches the text field: present and parsed
/// exactly when the text is present and valid.
pub open spec fn date_field_ok(
    ps: Seq<(Seq<char>, Seq<char>)>,
    key: Seq<char>,
    d: Option<LicenseDate>,
) -> bool {
    match get_spec(ps, key) {
        Some(txt) => match d {
            Some(ld) => rfc3339_of(txt) == Some((ld.unix_seconds as int, ld.offset_seconds as int)),
            Option::None => false,
        },
        Option::None => d is None,
    }
}

/// The date field is present but not a valid RFC 3339 date.
pub open spec fn date_bad(ps: Seq<(Seq<char>, Seq<char>)>, key: Seq<char>) -> bool {
    match get_spec(ps, key) {
        Some(txt) => rfc3339_of(txt) is None,
        Option::None => false,
    }
}

/// A license's parsed key/value store and the fields read out of it.
pub struct LicenseParser {
    pub id: String,
    pub issued: Option<LicenseDate>,
    pub expires: Option<LicenseDate>,
    pub subscription_expiration_date: Option<LicenseDate>,
    pub pairs: Vec<(String, String)>,
}

/// What a successfully parsed license guarantees: the pair store is
/// exactly the text's key/value lines, the id is the `Id` (or `Domain`)
/// field, and each date field is the parsed text field.
pub open spec fn parser_ok(p: LicenseParser, text: Seq<char>) -> bool {
    let ps = license_pairs_from(text, 0);
    &&& view_pairs(p.pairs@) == ps
    &&& id_of(ps) == Some(p.id@)
    &&& date_field_ok(ps, "Issued"@, p.issued)
    &&& date_field_ok(ps, "Expires"@, p.expires)
    &&& date_field_ok(ps, "SubscriptionExpirationDate"@, p.subscription_expiration_date)
}

/// Why parsing a license text fails: no identity field, or a present but
/// invalid date field.
pub open spec fn parser_fails(text: Seq<char>) -> bool {
    let ps = license_pairs_from(text, 0);
    ||| id_of(ps) is None
    ||| date_bad(ps, "Issued"@)
    ||| date_bad(ps, "Expires"@)
    ||| date_bad(ps, "SubscriptionExpirationDate"@)
}

/// Reads and parses one date field.
fn parse_date_field(pairs: &Vec<(String, String)>, key: &str) -> (r: Result<
    Option<LicenseDate>,
    LicenseError,
>)
    ensures
        match r {
            Ok(d) => date_field_ok(view_pairs(pairs@), key@, d),
            Err(e) => e is LicenseCorrupted && date_bad(view_pairs(pairs@), key@),
        },
{
    match get_idx(pairs, key) {
        Some(k) => match parse_rfc3339(pairs[k].1.as_str()) {
            Some(d) => Ok(Some(d)),
            None => Err(
                LicenseError::LicenseCorrupted(
                    String::from_str("License dates must be valid iso1806/rfc3339 date strings."),
                ),
            ),
        },
        None => Ok(Option::None),
    }
}

/// The field value parsed as an i32 matches the text field.
pub open spec fn int_field_ok(
    ps: Seq<(Seq<char>, Seq<char>)>,
    key: Seq<char>,
    r: Option<i32>,
) -> bool {
    match get_spec(ps, key) {
        Some(txt) => match r {
            Some(v) => parse_i32_spec(txt) == Some(v as int),
            Option::None => parse_i32_spec(txt) is None,
        },
        Option::None => r is None,
    }
}

impl LicenseParser {
    /// Parses a license text into its key/value pairs and named fields.
    /// A license must carry an `Id` or `Domain` field, and its date
    /// fields must be valid RFC 3339 dates.
    pub fn new(s: &str) -> (r: Result<LicenseParser, LicenseError>)
        ensures
            match r {
                Ok(p) => parser_ok(p, s@),
                Err(e) => e is LicenseCorrupted && parser_fails(s@),
            },
    {
        let pairs = parse_pairs(s);
        let id: String = match get_idx(&pairs, "Id") {
            Some(k) => pairs[k].1.clone(),
            None => match get_idx(&pairs, "Domain") {
                Some(k) => pairs[k].1.clone(),
                None => {
                    return Err(
                        LicenseError::LicenseCorrupted(
                            String::from_str(
                                "No 'Id' or 'Domain' fields found in license. At least one is required.",
                            ),
                        ),
                    );
                },
            },
        };
        let issued = match parse_date_field(&pairs, "Issued") {
            Ok(d) => d,
            Err(e) => {
                return Err(e);
            },
        };
        let expires = match parse_date_field(&pairs, "Expires") {
            Ok(d) => d,
            Err(e) => {
                return Err(e);
            },
        };
        let subscription_expiration_date = match parse_date_field(
            &pairs,
            "SubscriptionExpirationDate",
        ) {
            Ok(d) => d,
            Err(e) => {
                return Err(e);
            },
        };
        Ok(LicenseParser { id, issued, expires, subscription_expiration_date, pairs })
    }

    /// The value of the given field, compared case-insensitively.
    pub fn get(&self, key: &str) -> (r: Option<&str>)
        ensures
            match r {
                Some(v) => get_spec(view_pairs(self.pairs@), key@) == Some(v@),
                None => get_spec(view_pairs(self.pairs@), key@) is None,
            },
    {
        match get_idx(&self.pairs, key) {
            Some(k) => Some(self.pairs[k].1.as_str()),
            None => Option::None,
        }
    }

    /// The license's identity.
    pub fn id(&self) -> (r: &str)
        ensures
            r@ == self.id@,
    {
        self.id.as_str()
    }

    /// When the license was issued, if stated.
    pub fn issued(&self) -> (r: Option<LicenseDate>)
        ensures
            r == self.issued,
    {
        self.issued
    }

    /// When the license expires, if stated.
    pub fn expires(&self) -> (r: Option<LicenseDate>)
        ensures
            r == self.expires,
    {
        self.expires
    }

    /// When the subscription expires, if stated.
    pub fn subscription_expiration_date(&self) -> (r: Option<LicenseDate>)
        ensures
            r == self.subscription_expiration_date,
    {
        self.subscription_expiration_date
    }

    /// Whether this license is a placeholder referring to a remote one.
    pub fn is_remote_placeholder(&self) -> (r: bool)
        ensures
            r == match get_spec(view_pairs(self.pairs@), "Kind"@) {
                Some(v) => fold_of(v) == fold_of("id"@),
                Option::None => false,
            },
    {
        match self.get("Kind") {
            Some(v) => unicase_eq(v, "id"),
            None => false,
        }
    }

    /// Whether the license has been revoked.
    pub fn is_revoked(&self) -> (r: bool)
        ensures
            r == match get_spec(view_pairs(self.pairs@), "Valid"@) {
                Some(v) => fold_of(v) == fold_of("false"@),
                Option::None => false,
            },
    {
        match self.get("Valid") {
            Some(v) => unicase_eq(v, "false"),
            None => false,
        }
    }

    /// Whether the license text is public.
    pub fn is_public(&self) -> (r: bool)
        ensures
            r == match get_spec(view_pairs(self.pairs@), "IsPublic"@) {
                Some(v) => fold_of(v) == fold_of("true"@),
                Option::None => false,
            },
    {
        match self.get("IsPublic") {
            Some(v) => unicase_eq(v, "true"),
            None => false,
        }
    }

    /// Whether the license must be fetched from a license server.
    pub fn is_must_be_fetched(&self) -> (r: bool)
        ensures
            r == match get_spec(view_pairs(self.pairs@), "MustBeFetched"@) {
                Some(v) => fold_of(v) == fold_of("true"@),
                Option::None => false,
            },
    {
        match self.get("MustBeFetched") {
            Some(v) => unicase_eq(v, "true"),
            None => false,
        }
    }

    /// The grace period without network access, in minutes.
    pub fn network_grace_minutes(&self) -> (r: Option<i32>)
        ensures
            int_field_ok(view_pairs(self.pairs@), "NetworkGraceMinutes"@, r),
    {
        match self.get("NetworkGraceMinutes") {
            Some(v) => parse_i32(v),
            None => Option::None,
        }
    }

    /// How often to re-check the license, in minutes.
    pub fn check_license_interval_minutes(&self) -> (r: Option<i32>)
        ensures
            int_field_ok(view_pairs(self.pairs@), "CheckLicenseIntervalMinutes"@, r),
    {
        match self.get("CheckLicenseIntervalMinutes") {
            Some(v) => parse_i32(v),
            None => Option::None,
        }
    }

    /// The shared secret, if any.
    pub fn secret(&self) -> (r: Option<&str>)
        ensures
            match r {
                Some(v) => get_spec(view_pairs(self.pairs@), "Secret"@) == Some(v@),
                None => get_spec(view_pairs(self.pairs@), "Secret"@) is None,
            },
    {
        self.get("Secret")
    }

    /// The restrictions text, if any.
    pub fn restrictions(&self) -> (r: Option<&str>)
        ensures
            match r {
                Some(v) => get_spec(view_pairs(self.pairs@), "Restrictions"@) == Some(v@),
                None => get_spec(view_pairs(self.pairs@), "Restrictions"@) is None,
            },
    {
        self.get("Restrictions")
    }

    /// The message to surface, if any.
    pub fn message(&self) -> (r: Option<&str>)
        ensures
            match r {
                Some(v) => get_spec(view_pairs(self.pairs@), "Message"@) == Some(v@),
                None => get_spec(view_pairs(self.pairs@), "Message"@) is None,
            },
    {
        self.get("Message")
    }

    /// The message to surface once expired, if any.
    pub fn expiry_message(&self) -> (r: Option<&str>)
        ensures
            match r {
                Some(v) => get_spec(view_pairs(self.pairs@), "ExpiryMessage"@) == Some(v@),
                None => get_spec(view_pairs(self.pairs@), "ExpiryMessage"@) is None,
            },
    {
        self.get("ExpiryMessage")
    }
}

/// The `Features` field split at spaces, tabs and commas, each token
/// trimmed; empty tokens are kept, as the original field syntax has them.
pub open spec fn features_spec(ps: Seq<(Seq<char>, Seq<char>)>) -> Seq<Seq<char>> {
    match get_spec(ps, "Features"@) {
        Some(txt) => split_tokens_from(txt, ' ', '\t', ',', 0).map_values(
            |t: Seq<char>| trim_spec(t),
        ),
        Option::None => Seq::empty(),
    }
}

/// The `LicenseServers` field split at spaces and tabs, each token
/// trimmed.
pub open spec fn license_servers_spec(ps: Seq<(Seq<char>, Seq<char>)>) -> Seq<Seq<char>> {
    match get_spec(ps, "LicenseServers"@) {
        Some(txt) => split_tokens_from(txt, ' ', '\t', '\t', 0).map_values(
            |t: Seq<char>| trim_spec(t),
        ),
        Option::None => Seq::empty(),
    }
}

/// Trimmed and lowercased tokens, empty ones dropped.
pub open spec fn normalize_domains(ts: Seq<Seq<char>>) -> Seq<Seq<char>>
    decreases ts.len(),
{
    if ts.len() == 0 {
        Seq::empty()
    } else {
        let x = lower_of(trim_spec(ts.first()));
        let rest = normalize_domains(ts.drop_first());
        if x.len() > 0 {
            seq![x] + rest
        } else {
            rest
        }
    }
}

/// The domains the license covers: the `Domains` field split at spaces,
/// tabs and commas, with the `Domain` field appended, every token
/// trimmed and lowercased, and empty tokens dropped.
pub open spec fn domains_spec(ps: Seq<(Seq<char>, Seq<char>)>) -> Seq<Seq<char>> {
    let base = match get_spec(ps, "Domains"@) {
        Some(txt) => split_tokens_from(txt, ' ', '\t', ',', 0),
        Option::None => Seq::empty(),
    };
    let with_single = match get_spec(ps, "Domain"@) {
        Some(d) => base.push(d),
        Option::None => base,
    };
    normalize_domains(with_single)
}

/// Trims each of a vector of tokens.
fn trim_all(toks: &Vec<String>) -> (r: Vec<String>)
    ensures
        view_strs(r@) == view_strs(toks@).map_values(|t: Seq<char>| trim_spec(t)),
{
    let mut r: Vec<String> = Vec::new();
    let mut i: usize = 0;
    while i < toks.len()
        invariant
            i <= toks@.len(),
            view_strs(r@) =~= view_strs(toks@).map_values(|t: Seq<char>| trim_spec(t)).take(
                i as int,
            ),
        decreases toks@.len() - i,
    {
        let t = &toks[i];
        let n = t.as_str().unicode_len();
        let trimmed = trim_range(t.as_str(), 0, n);
        proof {
            assert(t@.subrange(0, t@.len() as int) =~= t@);
        }
        let ghost r0 = r@;
        r.push(trimmed);
        proof {
            assert(trimmed@ == trim_spec(toks@[i as int]@));
            assert(view_strs(toks@)[i as int] == toks@[i as int]@);
            assert(view_strs(toks@).map_values(|t2: Seq<char>| trim_spec(t2))[i as int]
                == trim_spec(toks@[i as int]@));
            assert(view_strs(r@) =~= view_strs(r0).push(trimmed@));
            assert(view_strs(r@) =~= view_strs(toks@).map_values(|t2: Seq<char>| trim_spec(t2)).take(
                i as int + 1,
            ));
        }
        i += 1;
    }
    proof {
        assert(view_strs(toks@).map_values(|t2: Seq<char>| trim_spec(t2)).take(toks@.len() as int)
            =~= view_strs(toks@).map_values(|t2: Seq<char>| trim_spec(t2)));
    }
    r
}

impl LicenseParser {
    /// The features the license grants.
    pub fn features(&self) -> (r: Vec<String>)
        ensures
            view_strs(r@) == features_spec(view_pairs(self.pairs@)),
    {
        match self.get("Features") {
            Some(v) => {
                let toks = split_tokens(v, ' ', '\t', ',');
                trim_all(&toks)
            },
            None => Vec::new(),
        }
    }

    /// The license servers to fetch from.
    pub fn license_servers(&self) -> (r: Vec<String>)
        ensures
            view_strs(r@) == license_servers_spec(view_pairs(self.pairs@)),
    {
        match self.get("LicenseServers") {
            Some(v) => {
                let toks = split_tokens(v, ' ', '\t', '\t');
                trim_all(&toks)
            },
            None => Vec::new(),
        }
    }

    /// The domains the license covers, lowercased, empty entries dropped.
    pub fn domains(&self) -> (r: Vec<String>)
        ensures
            view_strs(r@) == domains_spec(view_pairs(self.pairs@)),
    {
        let mut toks: Vec<String> = match self.get("Domains") {
            Some(v) => split_tokens(v, ' ', '\t', ','),
            None => Vec::new(),
        };
        match self.get("Domain") {
            Some(d) => {
                toks.push(d.to_owned());
            },
            None => {},
        }
        let ghost with_single = view_strs(toks@);
        let mut r: Vec<String> = Vec::new();
        let mut i: usize = 0;
        proof {
            assert(view_strs(toks@).skip(0) =~= view_strs(toks@));
        }
        while i < toks.len()
            invariant
                i <= toks@.len(),
                with_single == view_strs(toks@),
                normalize_domains(with_single) == view_strs(r@) + normalize_domains(
                    view_strs(toks@).skip(i as int),
                ),
            decreases toks@.len() - i,
        {
            let t = &toks[i];
            let n = t.as_str().unicode_len();
            let trimmed = trim_range(t.as_str(), 0, n);
            proof {
                assert(t@.subrange(0, t@.len() as int) =~= t@);
            }
            let lowered = lowercase(trimmed.as_str());
            let ghost r0 = r@;
            let ghost rem = view_strs(toks@).skip(i as int);
            proof {
                assert(rem.first() == toks@[i as int]@);
                assert(rem.drop_first() =~= view_strs(toks@).skip(i as int + 1));
            }
            if lowered.as_str().unicode_len() > 0 {
                r.push(lowered);
                proof {
                    let x = lower_of(trim_spec(rem.first()));
                    assert(view_strs(r@) =~= view_strs(r0).push(x));
                    assert(view_strs(r0).push(x) =~= view_strs(r0) + seq![x]);
                    assert(view_strs(r0) + (seq![x] + normalize_domains(rem.drop_first())) =~= (
                    view_strs(r0) + seq![x]) + normalize_domains(rem.drop_first()));
                }
            }
            i += 1;
        }
        proof {
            assert(view_strs(toks@).skip(toks@.len() as int) =~= Seq::<Seq<char>>::empty());
            assert(view_strs(r@) + Seq::<Seq<char>>::empty() =~= view_strs(r@));
            match get_spec(view_pairs(self.pairs@), "Domain"@) {
                Some(d) => {
                    assert(with_single =~= (match get_spec(view_pairs(self.pairs@), "Domains"@) {
                        Some(txt) => split_tokens_from(txt, ' ', '\t', ',', 0),
                        Option::None => Seq::empty(),
                    }).push(d));
                },
                Option::None => {
                    assert(with_single =~= (match get_spec(view_pairs(self.pairs@), "Domains"@) {
                        Some(txt) => split_tokens_from(txt, ' ', '\t', ',', 0),
                        Option::None => Seq::empty(),
                    }));
                },
            }
        }
        r
    }
}

/// A deserialized license: the original text, the decoded payload and
/// signature, and the parsed fields.
pub struct LicenseBlob {
    pub original: String,
    pub signature: Vec<u8>,
    pub data: Vec<u8>,
    pub fields: LicenseParser,
}

/// The colon-separated segments of a license string, each trimmed.
pub open spec fn parts_spec(s: Seq<char>) -> Seq<Seq<char>> {
    split_tokens_from(s, ':', ':', ':', 0).map_values(|t: Seq<char>| trim_spec(t))
}

/// What a successfully deserialized blob guarantees: the second-to-last
/// segment decodes to the payload, the last to the signature, the
/// signature validates against some trusted key, and the payload parses.
pub open spec fn blob_ok(keys: Seq<RSADecryptPublic>, license: Seq<char>, b: LicenseBlob) -> bool {
    let parts = parts_spec(license);
    &&& parts.len() >= 2
    &&& base64_of(parts[parts.len() - 2]) == Some(b.data@)
    &&& base64_of(parts[parts.len() - 1]) == Some(b.signature@)
    &&& validate_spec(keys, sha512_of(b.data@), b.signature@) == Some(true)
    &&& vstd::utf8::valid_utf8(b.data@)
    &&& b.original@ == license
    &&& parser_ok(b.fields, vstd::utf8::decode_utf8(b.data@))
}

/// Why deserialization fails: too few segments, a segment that is not
/// base64, a signature that no trusted key validates, a payload that is
/// not UTF-8, or a payload that does not parse.
pub open spec fn blob_fails(keys: Seq<RSADecryptPublic>, license: Seq<char>) -> bool {
    let parts = parts_spec(license);
    if parts.len() < 2 {
        true
    } else {
        match base64_of(parts[parts.len() - 2]) {
            Option::None => true,
            Some(data) => match base64_of(parts[parts.len() - 1]) {
                Option::None => true,
                Some(sig) => if validate_spec(keys, sha512_of(data), sig) != Some(true) {
                    true
                } else if !vstd::utf8::valid_utf8(data) {
                    true
                } else {
                    parser_fails(vstd::utf8::decode_utf8(data))
                },
            },
        }
    }
}

impl LicenseBlob {
    /// Deserializes a license string: splits at colons, decodes the
    /// payload and signature segments, verifies the signature against
    /// the trusted keys, and parses the payload.
    pub fn deserialize(trusted_keys: &[RSADecryptPublic], license: &str) -> (r: Result<
        LicenseBlob,
        LicenseError,
    >)
        requires
            forall|k: int| 0 <= k < trusted_keys@.len() ==> rsa_wf(#[trigger] trusted_keys@[k]),
        ensures
            match r {
                Ok(b) => blob_ok(trusted_keys@, license@, b),
                Err(_) => blob_fails(trusted_keys@, license@),
            },
    {
        let toks = split_tokens(license, ':', ':', ':');
        let parts = trim_all(&toks);
        if parts.len() < 2 {
            let mut m = String::from_str(
                "License incomplete: not enough ':' delimited segments found.\n",
            );
            m.append(license);
            return Err(LicenseError::LicenseCorrupted(m));
        }
        let data_bytes = match base64_decode(parts[parts.len() - 2].as_str()) {
            Some(v) => v,
            None => {
                let mut m = String::from_str("Second-to-last segment is not valid base 64.\n");
                m.append(license);
                return Err(LicenseError::LicenseCorrupted(m));
            },
        };
        let signature_bytes = match base64_decode(parts[parts.len() - 1].as_str()) {
            Some(v) => v,
            None => {
                let mut m = String::from_str("Second-to-last segment is not valid base 64.\n");
                m.append(license);
                return Err(LicenseError::LicenseCorrupted(m));
            },
        };
        let signature_valid = match validate_signature(
            data_bytes.as_slice(),
            signature_bytes.as_slice(),
            trusted_keys,
        ) {
            Ok(b) => b,
            Err(_) => {
                let mut m = String::from_str("License signature too long.\n");
                m.append(license);
                return Err(LicenseError::LicenseCorrupted(m));
            },
        };
        if !signature_valid {
            let mut m = String::from_str(
                "Decrypted license signature does not match license contents.\n",
            );
            m.append(license);
            return Err(LicenseError::LicenseCorrupted(m));
        }
        let data_string = match utf8_to_string(data_bytes.as_slice()) {
            Some(v) => v,
            None => {
                return Err(
                    LicenseError::LicenseCorrupted(
                        String::from_str("License contents must be valid UTF-8 bytes"),
                    ),
                );
            },
        };
        let fields = match LicenseParser::new(data_string.as_str()) {
            Ok(p) => p,
            Err(e) => {
                return Err(e);
            },
        };
        Ok(
            LicenseBlob {
                original: license.to_owned(),
                signature: signature_bytes,
                data: data_bytes,
                fields,
            },
        )
    }
}

/// The production trust store: keys whose decimal parameters parse and
/// are positive. That both embedded numerals do parse (so the store holds
/// exactly two keys) is checked at run time; stating it here would take
/// evaluating the six-hundred-digit literals inside a proof.
pub fn get_production_keys() -> (r: Vec<RSADecryptPublic>)
    ensures
        r@.len() <= 2,
        forall|k: int| 0 <= k < r@.len() ==> rsa_wf(#[trigger] r@[k]),
{
    let mut r: Vec<RSADecryptPublic> = Vec::new();
    match RSADecryptPublic::from_byte_strings(
        "23949488589991837273662465276682907968730706102086698017736172318753209677546629836371834786541857453052840819693021342491826827766290334135101781149845778026274346770115575977554682930349121443920608458091578262535319494351868006252977941758848154879863365934717437651379551758086088085154566157115250553458305198857498335213985131201841998493838963767334138323078497945594454883498534678422546267572587992510807296283688571798124078989780633040004809178041347751023931122344529856055566400640640925760832450260419468881471181281199910469396775343083815780600723550633987799763107821157001135810564362648091574582493".as_bytes(),
        "65537".as_bytes(),
    ) {
        Some(k) => {
            r.push(k);
        },
        None => {},
    }
    match RSADecryptPublic::from_byte_strings(
        "20966000569757071862106887100142448229133877611190126160168597284259733824510172534126967070490592659952430888203435031779696121874348777439846786968121542858840906429510085119585674950522992116110440180288728612219347325636018396716507682924594303420147925518492731883007123328081986113438120311956235689236820190735716844178839961449198918585485277306636638238163410140728079481083558191670535479781738412622557832581113291858559860935145319768483825412681366230852014952837750160226558508220374106696447994610354318517561059830141995002511253671974534953764078640650030953288533566233172651498868658899945417935381".as_bytes(),
        "65537".as_bytes(),
    ) {
        Some(k) => {
            r.push(k);
        },
        None => {},
    }
    r
}

/// The test trust store.
pub fn get_test_keys() -> (r: Vec<RSADecryptPublic>)
    ensures
        r@.len() <= 1,
        forall|k: int| 0 <= k < r@.len() ==> rsa_wf(#[trigger] r@[k]),
{
    let mut r: Vec<RSADecryptPublic> = Vec::new();
    match RSADecryptPublic::from_byte_strings(
        "21403964489040138713896545869406851734432500305180577929806228393671667423170541918856531956008546071841016201645150244452266439995041173092354230946610429300967887006960186647111152810965360763586210200652502467947786453111507369142658284220331513416234497960844309808252643534631142917589553418044306073242485021092396181183125381004682521853943025560860753079004948017667604884278401445729443478586697229583656851019218046599746243419376456426788044497274378001221965538712352348475726349124652450874653832672820100829574087311416068166524423905971193163418806721436095962165082262760557869093554827824418663362349".as_bytes(),
        "65537".as_bytes(),
    ) {
        Some(k) => {
            r.push(k);
        },
        None => {},
    }
    r
}

/// The production and test trust stores together.
pub fn get_all_keys() -> (r: Vec<RSADecryptPublic>)
    ensures
        r@.len() <= 3,
        forall|k: int| 0 <= k < r@.len() ==> rsa_wf(#[trigger] r@[k]),
{
    let mut r = get_production_keys();
    let mut t = get_test_keys();
    let ghost r0 = r@;
    let ghost t0 = t@;
    r.append(&mut t);
    proof {
        assert forall|k: int| 0 <= k < r@.len() implies rsa_wf(#[trigger] r@[k]) by {
            if k < r0.len() {
                assert(r@[k] == r0[k]);
            } else {
                assert(r@[k] == t0[k - r0.len()]);
            }
        }
    }
    r
}

} // verus!
