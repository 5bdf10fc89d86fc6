use vstd::prelude::*;

use crate::chunker::chars_to_string;

verus! {

/// The 32-byte SHA-256 digest computed over the bytes of a chunk text
/// followed by the bytes of a target-language name.  The digest is a
/// function of the two strings alone.
pub uninterp spec fn fp_digest(text: Seq<char>, lang: Seq<char>) -> Seq<u8>;

/// Relies on sha2::Sha256 through the Digest trait: feeding the text's
/// bytes and then the language's bytes and finalizing yields a 32-byte
/// digest that depends on those two strings alone.
#[verifier::external_body]
fn sha256_digest(text: &str, lang: &str) -> (r: Vec<u8>)
    ensures
        r@ == fp_digest(text@, lang@),
        r@.len() == 32,
{
    let mut hasher = <sha2::Sha256 as sha2::Digest>::new();
    sha2::Digest::update(&mut hasher, text.as_bytes());
    sha2::Digest::update(&mut hasher, lang.as_bytes());
    sha2::Digest::finalize(hasher).to_vec()
}

/// The lowercase hexadecimal digit for a value below sixteen.
pub open spec fn hex_digit(n: u8) -> char
    recommends
        n < 16,
{
    if n < 10 {
        (48 + n) as char
    } else {
        (87 + n) as char
    }
}

/// The lowercase hexadecimal rendering of a byte string, two digits per
/// byte, high digit first.
pub open spec fn hex_of_bytes(bytes: Seq<u8>) -> Seq<char>
    decreases bytes.len(),
{
    if bytes.len() == 0 {
        Seq::empty()
    } else {
        seq![
            hex_digit(bytes[0] / 16),
            hex_digit(bytes[0] % 16),
        ] + hex_of_bytes(bytes.drop_first())
    }
}

proof fn lemma_hex_of_bytes_push(bytes: Seq<u8>, b: u8)
    ensures
        hex_of_bytes(bytes.push(b)) == hex_of_bytes(bytes) + seq![
            hex_digit(b / 16),
            hex_digit(b % 16),
        ],
    decreases bytes.len(),
{
    if bytes.len() == 0 {
        assert(bytes.push(b)[0] == b);
        assert(bytes.push(b).drop_first() =~= Seq::<u8>::empty());
        assert(hex_of_bytes(Seq::<u8>::empty()) =~= Seq::<char>::empty());
        assert(hex_of_bytes(bytes.push(b)) =~= hex_of_bytes(bytes) + seq![
            hex_digit(b / 16),
            hex_digit(b % 16),
        ]);
    } else {
        assert(bytes.push(b)[0] == bytes[0]);
        assert(bytes.push(b).drop_first() =~= bytes.drop_first().push(b));
        lemma_hex_of_bytes_push(bytes.drop_first(), b);
        assert(hex_of_bytes(bytes.push(b)) =~= hex_of_bytes(bytes) + seq![
            hex_digit(b / 16),
            hex_digit(b % 16),
        ]);
    }
}

pub proof fn lemma_hex_of_bytes_len(bytes: Seq<u8>)
    ensures
        hex_of_bytes(bytes).len() == 2 * bytes.len(),
    decreases bytes.len(),
{
    if bytes.len() > 0 {
        lemma_hex_of_bytes_len(bytes.drop_first());
    }
}

/// The cache key of a chunk: the hexadecimal form of the SHA-256 digest
/// over the chunk text and the target language.
pub open spec fn fingerprint_of(text: Seq<char>, lang: Seq<char>) -> Seq<char> {
    hex_of_bytes(fp_digest(text, lang))
}

fn hex_digit_char(n: u8) -> (c: char)
    requires
        n < 16,
    ensures
        c == hex_digit(n),
{
    if n < 10 {
        (48 + n) as char
    } else {
        (87 + n) as char
    }
}

/// Computes the cache key for one chunk of text and a target language:
/// sixty-four lowercase hexadecimal digits of the SHA-256 digest over the
/// two strings.  The same pair always yields the same key.
pub fn fingerprint(text: &str, lang: &str) -> (r: String)
    ensures
        r@ == fingerprint_of(text@, lang@),
        r@.len() == 64,
{
    let digest = sha256_digest(text, lang);
    let mut hex: Vec<char> = Vec::new();
    let mut i: usize = 0;
    proof {
        assert(digest@.take(0) =~= Seq::<u8>::empty());
        assert(hex@ =~= hex_of_bytes(digest@.take(0)));
    }
    while i < digest.len()
        invariant
            i <= digest@.len(),
            hex@ == hex_of_bytes(digest@.take(i as int)),
        decreases digest@.len() - i,
    {
        let b = digest[i];
        hex.push(hex_digit_char(b / 16));
        hex.push(hex_digit_char(b % 16));
        i = i + 1;
        proof {
            lemma_hex_of_bytes_push(digest@.take(i - 1), b);
            assert(digest@.take(i - 1).push(b) =~= digest@.take(i as int));
            assert(hex@ =~= hex_of_bytes(digest@.take(i as int)));
        }
    }
    proof {
        assert(digest@.take(digest@.len() as int) =~= digest@);
        lemma_hex_of_bytes_len(digest@);
    }
    chars_to_string(&hex)
}

/// Fingerprints are deterministic: the cache key is a function of the
/// chunk text and the target language alone, so equal pairs always yield
/// equal keys.
pub proof fn lemma_fingerprint_deterministic(
    t1: Seq<char>,
    l1: Seq<char>,
    t2: Seq<char>,
    l2: Seq<char>,
)
    requires
        t1 == t2,
        l1 == l2,
    ensures
        fingerprint_of(t1, l1) == fingerprint_of(t2, l2),
{
}

} // verus!
