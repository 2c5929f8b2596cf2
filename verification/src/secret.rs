//! Secrets embedded in the source as `UNAGI::<nonce hex>::<ciphertext hex>`,
//! encrypted with AES-128-GCM under the first 16 bytes of a password.
use vstd::prelude::*;
use aes_gcm::aead::generic_array::GenericArray;
use aes_gcm::aead::{Aead, NewAead};

verus! {

/// Why a secret could not be recovered.
#[derive(Debug, Clone, Copy, PartialEq, Eq, Structural)]
pub enum SecretError {
    /// The text is not three `::`-separated fields starting with `UNAGI`.
    InvalidFormat,
    /// The nonce or the ciphertext is not valid hexadecimal.
    InvalidHex,
    /// Authentication of the ciphertext failed.
    DecryptionFailed,
    /// The plaintext is not UTF-8.
    InvalidUtf8,
}

/// A `::` starts at index `j`.
pub open spec fn separator_at(s: Seq<char>, j: int) -> bool {
    0 <= j && j + 1 < s.len() && s[j] == ':' && s[j + 1] == ':'
}

/// Index of the first `::` in `s` at or after `i`.
pub open spec fn find_separator(s: Seq<char>, i: int) -> Option<int>
    decreases s.len() - i,
{
    if i < 0 || i + 1 >= s.len() {
        None
    } else if s[i] == ':' && s[i + 1] == ':' {
        Some(i)
    } else {
        find_separator(s, i + 1)
    }
}

/// A separator found at or after `i` is a real `::` with none before it.
pub proof fn lemma_find_separator(s: Seq<char>, i: int)
    requires
        0 <= i,
    ensures
        find_separator(s, i) matches Some(k) ==> i <= k && separator_at(s, k) && forall|j: int|
            i <= j < k ==> !#[trigger] separator_at(s, j),
        find_separator(s, i) is None ==> forall|j: int| i <= j ==> !#[trigger] separator_at(s, j),
    decreases s.len() - i,
{
    if i + 1 < s.len() && !(s[i] == ':' && s[i + 1] == ':') {
        lemma_find_separator(s, i + 1);
    }
}

/// `str::split("::")`: the pieces between the non-overlapping occurrences
/// of `::`, found from the left.
pub open spec fn split_fields(s: Seq<char>) -> Seq<Seq<char>>
    decreases s.len(),
{
    match find_separator(s, 0) {
        None => seq![s],
        Some(k) => {
            proof {
                lemma_find_separator(s, 0);
            }
            seq![s.take(k)] + split_fields(s.skip(k + 2))
        },
    }
}

/// Value of a hexadecimal digit of either case.
pub open spec fn hex_value(c: char) -> Option<int> {
    let x = c as int;
    if 48 <= x <= 57 {
        Some(x - 48)
    } else if 65 <= x <= 70 {
        Some(x - 55)
    } else if 97 <= x <= 102 {
        Some(x - 87)
    } else {
        None
    }
}

/// `hex::decode`: an even number of hexadecimal digits, read in pairs,
/// high digit first.
pub open spec fn hex_decoded(s: Seq<char>) -> Option<Seq<u8>> {
    if s.len() % 2 == 0 && forall|i: int| 0 <= i < s.len() ==> #[trigger] hex_value(s[i]) is Some {
        Some(
            Seq::new(
                s.len() / 2,
                |k: int| (hex_value(s[2 * k]).unwrap() * 16 + hex_value(s[2 * k + 1]).unwrap()) as u8,
            ),
        )
    } else {
        None
    }
}

/// The plaintext that AES-128-GCM recovers from `ciphertext` (tag appended)
/// under `key` and `nonce`, or `None` when authentication fails.
pub uninterp spec fn aes128_gcm_open(key: Seq<u8>, nonce: Seq<u8>, ciphertext: Seq<u8>) -> Option<Seq<u8>>;

/// `hex::decode`, whose source reads the text as bytes: an odd length, or
/// a byte other than an ASCII hexadecimal digit, is an error.
#[verifier::external_body]
fn hex_decode(s: &str) -> (r: Option<Vec<u8>>)
    ensures
        r matches Some(b) ==> hex_decoded(s@) == Some(b@),
        r is None ==> hex_decoded(s@) is None,
{
    hex::decode(s).ok()
}

/// `Aes128Gcm::new` on the key and `Aead::decrypt` with the nonce; the
/// result is named, not described.
#[verifier::external_body]
fn aes128_gcm_decrypt(key: &[u8], nonce: &[u8], ciphertext: &[u8]) -> (r: Option<Vec<u8>>)
    requires
        key@.len() == 16,
        nonce@.len() == 12,
    ensures
        r matches Some(p) ==> aes128_gcm_open(key@, nonce@, ciphertext@) == Some(p@),
        r is None ==> aes128_gcm_open(key@, nonce@, ciphertext@) is None,
{
    let cipher = aes_gcm::Aes128Gcm::new(&GenericArray::clone_from_slice(key));
    cipher.decrypt(GenericArray::from_slice(nonce), ciphertext).ok()
}

/// `String::from_utf8`: documented to succeed exactly on valid UTF-8, with
/// the text those bytes encode.
#[verifier::external_body]
pub(crate) fn string_from_utf8(bytes: Vec<u8>) -> (r: Option<String>)
    ensures
        r is Some <==> vstd::utf8::valid_utf8(bytes@),
        r matches Some(s) ==> vstd::utf8::encode_utf8(s@) == bytes@,
{
    String::from_utf8(bytes).ok()
}

/// The plaintext bytes behind a well-formed secret, or the reason there
/// are none (the UTF-8 check on them comes last).
pub open spec fn secret_bytes(password: Seq<u8>, input: Seq<char>) -> Result<Seq<u8>, SecretError> {
    let parts = split_fields(input);
    if parts.len() != 3 || parts[0] != "UNAGI"@ {
        Err(SecretError::InvalidFormat)
    } else {
        match (hex_decoded(parts[1]), hex_decoded(parts[2])) {
            (Some(nonce), Some(ciphertext)) => match aes128_gcm_open(
                password.take(16),
                nonce,
                ciphertext,
            ) {
                Some(plain) => Ok(plain),
                None => Err(SecretError::DecryptionFailed),
            },
            _ => Err(SecretError::InvalidHex),
        }
    }
}

/// A nonce field that decodes is 12 bytes long (the cipher takes no other
/// length).
pub open spec fn nonce_fits(input: Seq<char>) -> bool {
    let parts = split_fields(input);
    parts.len() == 3 && parts[0] == "UNAGI"@ && hex_decoded(parts[1]) is Some
        ==> parts[1].len() == 24
}

/// Splits `s` at every `::`, from the left.
fn split_fields_exec(s: &str) -> (parts: Vec<&str>)
    ensures
        parts@.len() == split_fields(s@).len(),
        forall|k: int| 0 <= k < parts@.len() ==> (#[trigger] parts@[k])@ == split_fields(s@)[k],
{
    let n = s.unicode_len();
    let mut parts: Vec<&str> = Vec::new();
    let mut start: usize = 0;
    let mut i: usize = 0;
    let ghost done: Seq<Seq<char>> = Seq::empty();
    proof {
        assert(s@.skip(0) =~= s@);
        assert(done + split_fields(s@) =~= split_fields(s@));
    }
    while i < n
        invariant
            n == s@.len(),
            start <= i <= n,
            parts@.len() == done.len(),
            forall|k: int| 0 <= k < parts@.len() ==> (#[trigger] parts@[k])@ == done[k],
            done + split_fields(s@.skip(start as int)) == split_fields(s@),
            forall|j: int| start <= j < i ==> !#[trigger] separator_at(s@, j),
        decreases n - i,
    {
        if i + 1 < n && s.get_char(i) == ':' && s.get_char(i + 1) == ':' {
            let ghost rest = s@.skip(start as int);
            proof {
                let k = (i - start) as int;
                lemma_find_separator(rest, 0);
                assert(separator_at(rest, k));
                assert forall|j: int| 0 <= j < k implies !#[trigger] separator_at(rest, j) by {
                    assert(rest[j] == s@[start + j]);
                    assert(rest[j + 1] == s@[start + j + 1]);
                    assert(!separator_at(s@, start + j));
                }
                if find_separator(rest, 0) is None {
                    assert(false);
                }
                let k2 = find_separator(rest, 0)->0;
                if k2 < k {
                    assert(rest[k2] == s@[start + k2]);
                    assert(rest[k2 + 1] == s@[start + k2 + 1]);
                    assert(!separator_at(s@, start + k2));
                    assert(false);
                }
                if k2 > k {
                    assert(false);
                }
                assert(rest.skip(k + 2) =~= s@.skip(i + 2));
                assert(rest.take(k) =~= s@.subrange(start as int, i as int));
            }
            let piece = s.substring_char(start, i);
            parts.push(piece);
            proof {
                done = done.push(piece@);
                assert(done + split_fields(s@.skip(i + 2)) =~= split_fields(s@)) by {
                    let rest = s@.skip(start as int);
                    assert(split_fields(rest) == seq![rest.take((i - start) as int)] + split_fields(
                        rest.skip((i - start) + 2),
                    ));
                    assert(rest.skip((i - start) + 2) =~= s@.skip(i + 2));
                    assert(done.drop_last() + (seq![piece@] + split_fields(s@.skip(i + 2)))
                        =~= done + split_fields(s@.skip(i + 2)));
                }
            }
            i = i + 2;
            start = i;
        } else {
            i = i + 1;
        }
    }
    let ghost rest = s@.skip(start as int);
    proof {
        lemma_find_separator(rest, 0);
        if find_separator(rest, 0) is Some {
            let k2 = find_separator(rest, 0)->0;
            assert(rest[k2] == s@[start + k2]);
            assert(rest[k2 + 1] == s@[start + k2 + 1]);
            assert(!separator_at(s@, start + k2));
            assert(false);
        }
        assert(rest =~= s@.subrange(start as int, n as int));
    }
    let piece = s.substring_char(start, n);
    parts.push(piece);
    proof {
        assert(done.push(piece@) =~= done + split_fields(rest));
        done = done.push(piece@);
    }
    parts
}

/// What `decrypt` gives back for `input` under `password`.
pub open spec fn decrypts_to(password: Seq<u8>, input: Seq<char>, r: Result<String, SecretError>) -> bool {
    match secret_bytes(password, input) {
        Err(e) => r == Err::<String, SecretError>(e),
        Ok(plain) => match r {
            Ok(s) => vstd::utf8::valid_utf8(plain) && vstd::utf8::encode_utf8(s@) == plain,
            Err(e) => e == SecretError::InvalidUtf8 && !vstd::utf8::valid_utf8(plain),
        },
    }
}

/// Recovers the secret in `input` (`UNAGI::<nonce hex>::<ciphertext hex>`)
/// with the key made of the first 16 bytes of `password`.
pub fn decrypt(password: &[u8], input: &str) -> (r: Result<String, SecretError>)
    requires
        password@.len() >= 16,
        nonce_fits(input@),
    ensures
        decrypts_to(password@, input@, r),
{
    let key = slice_prefix(password, 16);
    let parts = split_fields_exec(input);
    if parts.len() != 3 || !str_equals(parts[0], "UNAGI") {
        return Err(SecretError::InvalidFormat);
    }
    let nonce = match hex_decode(parts[1]) {
        Some(b) => b,
        None => {
            return Err(SecretError::InvalidHex);
        },
    };
    let ciphertext = match hex_decode(parts[2]) {
        Some(b) => b,
        None => {
            return Err(SecretError::InvalidHex);
        },
    };
    let plain = match aes128_gcm_decrypt(key.as_slice(), nonce.as_slice(), ciphertext.as_slice()) {
        Some(p) => p,
        None => {
            return Err(SecretError::DecryptionFailed);
        },
    };
    match string_from_utf8(plain) {
        Some(s) => Ok(s),
        None => Err(SecretError::InvalidUtf8),
    }
}

/// Whether `decrypt` can take `input`: a nonce field that is valid
/// hexadecimal has the 24 digits of a 12-byte nonce.
pub fn has_fitting_nonce(input: &str) -> (b: bool)
    ensures
        b == nonce_fits(input@),
{
    let parts = split_fields_exec(input);
    proof {
        reveal_strlit("UNAGI");
    }
    if parts.len() == 3 && str_equals(parts[0], "UNAGI") {
        match hex_decode(parts[1]) {
            Some(_) => parts[1].unicode_len() == 24,
            None => true,
        }
    } else {
        true
    }
}

/// A text that starts with `UNAGI::`, then 24 characters without `::`,
/// then `::`, has a nonce field of 24 characters.
proof fn lemma_nonce_field_fits(s: Seq<char>)
    requires
        s.len() >= 33,
        s[0] == 'U' && s[1] == 'N' && s[2] == 'A' && s[3] == 'G' && s[4] == 'I',
        s[5] == ':' && s[6] == ':',
        s[31] == ':' && s[32] == ':',
        forall|j: int| 7 <= j < 31 ==> s[j] != ':',
    ensures
        nonce_fits(s),
{
    lemma_find_separator(s, 0);
    if find_separator(s, 0) != Some(5int) {
        let k = find_separator(s, 0)->0;
        assert(separator_at(s, 5));
        assert(!separator_at(s, k));
    }
    let rest = s.skip(7);
    lemma_find_separator(rest, 0);
    assert(separator_at(rest, 24));
    if find_separator(rest, 0) != Some(24int) {
        let k = find_separator(rest, 0)->0;
        assert(k < 24);
        assert(rest[k] == s[7 + k]);
        assert(false);
    }
    assert(split_fields(s) == seq![s.take(5)] + split_fields(rest));
    assert(split_fields(rest) == seq![rest.take(24)] + split_fields(rest.skip(26)));
    assert(split_fields(rest.skip(26)).len() >= 1) by {
        reveal_with_fuel(split_fields, 1);
    }
}

/// The embedded password of the contest API.
pub open spec fn api_password_secret() -> Seq<char> {
    "UNAGI::76254259ff4e8fd2a63b360b::3fd40d3a3cf282fedcbe55d790e9e7a48f506b63804f9a56"@
}

/// The embedded token of the contest API.
pub open spec fn api_token_secret() -> Seq<char> {
    "UNAGI::7cc16a775814eb937770b6fc::70970bb8e6a0012d6639fe9db87e87b42a793f925d8ce5ef940ef9ae8aafe0fc7001aca64826796bfe3a297afaa667182b625e9e00daa31e5c763ce160c84739b8e2738292bc988a64d542eca09b1020cbc3f44b0b8c1682d536e9edb073e66721c8f00148f0bea3384a26b889db6e3758f18199b046859da4621234e2504fd5d3b104152232b5ac22343a6ac87824ad4dbbfbdabeee3218408dcfe3c416a59539b16248c39ee18d40477732aad5f930b88f1e8cc3b5cc5957980f5c"@
}

/// The password of the contest API, recovered with `password`.
pub fn api_password(password: &[u8]) -> (r: Result<String, SecretError>)
    requires
        password@.len() >= 16,
    ensures
        decrypts_to(password@, api_password_secret(), r),
{
    let input = "UNAGI::76254259ff4e8fd2a63b360b::3fd40d3a3cf282fedcbe55d790e9e7a48f506b63804f9a56";
    proof {
        reveal_strlit("UNAGI::76254259ff4e8fd2a63b360b::3fd40d3a3cf282fedcbe55d790e9e7a48f506b63804f9a56");
        lemma_nonce_field_fits(input@);
    }
    decrypt(password, input)
}

/// The token of the contest API, recovered with `password`.
pub fn api_token(password: &[u8]) -> (r: Result<String, SecretError>)
    requires
        password@.len() >= 16,
    ensures
        decrypts_to(password@, api_token_secret(), r),
{
    let input = "UNAGI::7cc16a775814eb937770b6fc::70970bb8e6a0012d6639fe9db87e87b42a793f925d8ce5ef940ef9ae8aafe0fc7001aca64826796bfe3a297afaa667182b625e9e00daa31e5c763ce160c84739b8e2738292bc988a64d542eca09b1020cbc3f44b0b8c1682d536e9edb073e66721c8f00148f0bea3384a26b889db6e3758f18199b046859da4621234e2504fd5d3b104152232b5ac22343a6ac87824ad4dbbfbdabeee3218408dcfe3c416a59539b16248c39ee18d40477732aad5f930b88f1e8cc3b5cc5957980f5c";
    proof {
        reveal_strlit("UNAGI::7cc16a775814eb937770b6fc::70970bb8e6a0012d6639fe9db87e87b42a793f925d8ce5ef940ef9ae8aafe0fc7001aca64826796bfe3a297afaa667182b625e9e00daa31e5c763ce160c84739b8e2738292bc988a64d542eca09b1020cbc3f44b0b8c1682d536e9edb073e66721c8f00148f0bea3384a26b889db6e3758f18199b046859da4621234e2504fd5d3b104152232b5ac22343a6ac87824ad4dbbfbdabeee3218408dcfe3c416a59539b16248c39ee18d40477732aad5f930b88f1e8cc3b5cc5957980f5c");
        lemma_nonce_field_fits(input@);
    }
    decrypt(password, input)
}

/// The first `k` bytes.
fn slice_prefix(b: &[u8], k: usize) -> (r: Vec<u8>)
    requires
        k <= b@.len(),
    ensures
        r@ == b@.take(k as int),
{
    let mut r: Vec<u8> = Vec::new();
    let mut i: usize = 0;
    while i < k
        invariant
            i <= k,
            k <= b@.len(),
            r@ == b@.take(i as int),
        decreases k - i,
    {
        r.push(b[i]);
        proof {
            assert(b@.take(i + 1) =~= b@.take(i as int).push(b@[i as int]));
        }
        i = i + 1;
    }
    r
}

/// Whether two texts are equal.
fn str_equals(a: &str, b: &str) -> (eq: bool)
    ensures
        eq == (a@ == b@),
{
    let n = a.unicode_len();
    let m = b.unicode_len();
    if n != m {
        return false;
    }
    let mut i: usize = 0;
    while i < n
        invariant
            n == a@.len(),
            m == b@.len(),
            n == m,
            i <= n,
            forall|j: int| 0 <= j < i ==> a@[j] == b@[j],
        decreases n - i,
    {
        if a.get_char(i) != b.get_char(i) {
            return false;
        }
        i = i + 1;
    }
    proof {
        assert(a@ =~= b@);
    }
    true
}

} // verus!
