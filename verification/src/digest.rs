use blake2::Digest;
use vstd::prelude::*;
use crate::text::{bar, bar_free, lemma_message_roundtrip, message_fields};

verus! {

/// The 64-byte BLAKE2b digest of a byte string, as computed by the `blake2` crate.
pub uninterp spec fn blake2b_512(data: Seq<u8>) -> Seq<u8>;

/// Computes the fixed-output BLAKE2b digest of `data` with `blake2::Blake2b`
/// (`new`, `input`, `result`). The contract claims only that the result is the
/// value of `blake2b_512` on the input bytes; the hash function itself is not
/// restated here.
#[verifier::external_body]
fn blake2b_digest(data: &[u8]) -> (digest: [u8; 64])
    ensures
        digest@ == blake2b_512(data@),
{
    let mut hasher = blake2::Blake2b::new();
    hasher.input(data);
    let output = hasher.result();
    let mut digest = [0u8; 64];
    digest.copy_from_slice(output.as_slice());
    digest
}

/// The lowercase ASCII hex digit for a nibble value below 16.
pub open spec fn hex_digit(nibble: u8) -> u8 {
    if nibble < 10 {
        (48 + nibble) as u8
    } else {
        (87 + nibble) as u8
    }
}

/// Lowercase hex text of a byte string: two digits per byte, high nibble first.
pub open spec fn hex_lower(data: Seq<u8>) -> Seq<u8> {
    Seq::new(
        (2 * data.len()) as nat,
        |k: int|
            if k % 2 == 0 {
                hex_digit(data[k / 2] / 16)
            } else {
                hex_digit(data[k / 2] % 16)
            },
    )
}

/// Encodes `data` with `hex::encode` and returns the text's bytes. The
/// contract states what the crate documents: lowercase digits, two per byte,
/// high nibble first.
#[verifier::external_body]
fn hex_encode(data: &[u8]) -> (text: Vec<u8>)
    ensures
        text@ == hex_lower(data@),
{
    hex::encode(data).into_bytes()
}

/// Hashes a lidar payload and writes its 64-byte BLAKE2b digest into
/// `returned_hash`.
pub fn say_something(lidar: &[u8], returned_hash: &mut [u8; 64])
    ensures
        final(returned_hash)@ == blake2b_512(lidar@),
{
    let hash = blake2b_digest(lidar);
    *returned_hash = hash;
}

/// Lowercase hex text of a digest.
pub fn digest_hex(digest: &[u8; 64]) -> (text: Vec<u8>)
    ensures
        text@ == hex_lower(digest@),
{
    hex_encode(digest)
}

/// Whether two byte strings are equal, compared byte by byte.
pub fn bytes_equal(a: &[u8], b: &[u8]) -> (same: bool)
    ensures
        same == (a@ == b@),
{
    if a.len() != b.len() {
        return false;
    }
    let mut i: usize = 0;
    while i < a.len()
        invariant
            a.len() == b.len(),
            i <= a.len(),
            forall|k: int| 0 <= k < i ==> a@[k] == b@[k],
        decreases a.len() - i,
    {
        if a[i] != b[i] {
            return false;
        }
        i = i + 1;
    }
    assert(a@ =~= b@);
    true
}

/// Whether `claimed` is the lowercase hex text of `digest`.
pub fn digest_matches(digest: &[u8; 64], claimed: &[u8]) -> (matches: bool)
    ensures
        matches == (hex_lower(digest@) == claimed@),
{
    let text = hex_encode(digest);
    bytes_equal(text.as_slice(), claimed)
}

/// The bytes that are hashed for a scan: the point text followed by the pose text.
pub open spec fn scan_payload(lidar: Seq<u8>, pose: Seq<u8>) -> Seq<u8> {
    lidar + pose
}

/// Concatenates the point text and the pose text of a scan.
pub fn payload_of(lidar: &[u8], pose: &[u8]) -> (payload: Vec<u8>)
    ensures
        payload@ == scan_payload(lidar@, pose@),
{
    let mut payload: Vec<u8> = Vec::new();
    let mut i: usize = 0;
    while i < lidar.len()
        invariant
            i <= lidar.len(),
            payload@ == lidar@.subrange(0, i as int),
        decreases lidar.len() - i,
    {
        payload.push(lidar[i]);
        i = i + 1;
    }
    let mut j: usize = 0;
    while j < pose.len()
        invariant
            j <= pose.len(),
            payload@ == lidar@ + pose@.subrange(0, j as int),
        decreases pose.len() - j,
    {
        payload.push(pose[j]);
        j = j + 1;
    }
    assert(pose@.subrange(0, pose@.len() as int) =~= pose@);
    payload
}

/// Whether a received hash text vouches for the received scan: it must be the
/// lowercase hex of the BLAKE2b digest of the point text followed by the pose text.
pub open spec fn scan_is_authentic(lidar: Seq<u8>, pose: Seq<u8>, claimed: Seq<u8>) -> bool {
    hex_lower(blake2b_512(scan_payload(lidar, pose))) == claimed
}

/// Recomputes the digest of a received scan and compares its hex text with the
/// hash text that came with it.
pub fn check_integrity(lidar: &[u8], pose: &[u8], claimed: &[u8]) -> (authentic: bool)
    ensures
        authentic == scan_is_authentic(lidar@, pose@, claimed@),
{
    let payload = payload_of(lidar, pose);
    let mut digest = [0u8; 64];
    say_something(payload.as_slice(), &mut digest);
    digest_matches(&digest, claimed)
}


/// Every byte of hex text is a lowercase hex digit, and the text is twice as
/// long as the data it encodes.
pub proof fn lemma_hex_lower_shape(data: Seq<u8>)
    ensures
        hex_lower(data).len() == 2 * data.len(),
        forall|k: int|
            0 <= k < hex_lower(data).len() ==> {
                let c = #[trigger] hex_lower(data)[k];
                (48 <= c <= 57) || (97 <= c <= 102)
            },
{
}

proof fn lemma_hex_digit_injective(x: u8, y: u8)
    requires
        x < 16,
        y < 16,
        hex_digit(x) == hex_digit(y),
    ensures
        x == y,
{
}

/// Hex text determines the bytes it encodes: two byte strings with the same
/// lowercase hex text are equal.
pub proof fn lemma_hex_lower_injective(a: Seq<u8>, b: Seq<u8>)
    requires
        hex_lower(a) == hex_lower(b),
    ensures
        a == b,
{
    lemma_hex_lower_shape(a);
    lemma_hex_lower_shape(b);
    assert(a.len() == b.len());
    assert forall|i: int| 0 <= i < a.len() implies a[i] == b[i] by {
        let ha = hex_lower(a);
        let hb = hex_lower(b);
        assert(ha[2 * i] == hb[2 * i]);
        assert(ha[2 * i + 1] == hb[2 * i + 1]);
        assert((2 * i) % 2 == 0 && (2 * i) / 2 == i);
        assert((2 * i + 1) % 2 == 1 && (2 * i + 1) / 2 == i);
        lemma_hex_digit_injective(a[i] / 16, b[i] / 16);
        lemma_hex_digit_injective(a[i] % 16, b[i] % 16);
        assert(a[i] == 16 * (a[i] / 16) + a[i] % 16);
        assert(b[i] == 16 * (b[i] / 16) + b[i] % 16);
    }
    assert(a =~= b);
}

/// A received scan is accepted together with the hex text of some digest
/// exactly when that digest is the BLAKE2b digest of the scan's payload: an
/// unaltered scan passes, and a hash text made from any other digest is refused.
pub proof fn lemma_accepted_iff_digest_matches(lidar: Seq<u8>, pose: Seq<u8>, digest: Seq<u8>)
    ensures
        scan_is_authentic(lidar, pose, hex_lower(digest)) <==> digest == blake2b_512(
            scan_payload(lidar, pose),
        ),
{
    if scan_is_authentic(lidar, pose, hex_lower(digest)) {
        lemma_hex_lower_injective(blake2b_512(scan_payload(lidar, pose)), digest);
    }
}


/// A message built from a `|`-free point text and pose text, each followed by
/// `|`, and then the hex text of their digest, is read back by the receiver as
/// that point text, pose text and hash text, and passes the integrity check.
pub proof fn lemma_sent_scan_is_accepted(lidar: Seq<u8>, pose: Seq<u8>)
    requires
        bar_free(lidar),
        bar_free(pose),
    ensures
        ({
            let claimed = hex_lower(blake2b_512(scan_payload(lidar, pose)));
            let fields = message_fields(lidar + bar() + pose + bar() + claimed);
            &&& fields == (lidar, pose, claimed)
            &&& scan_is_authentic(fields.0, fields.1, fields.2)
        }),
{
    let claimed = hex_lower(blake2b_512(scan_payload(lidar, pose)));
    lemma_hex_lower_shape(blake2b_512(scan_payload(lidar, pose)));
    assert forall|k: int| 0 <= k < claimed.len() implies claimed[k] != 124u8 by {
        let c = claimed[k];
        assert((48 <= c <= 57) || (97 <= c <= 102));
    }
    lemma_message_roundtrip(lidar, pose, claimed);
}

} // verus!
