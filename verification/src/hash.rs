//! The domain hash: bytes are absorbed into a prime-field element by folding a
//! SHA-256 digest base 256 into the field, and two field elements are
//! compressed into one with the Poseidon permutation.
//!
//! A field element is carried together with its canonical 32-byte big-endian
//! encoding, which is the element's mathematical model here: every contract
//! speaks of encodings, and equality of elements is equality of encodings.

use vstd::pervasive::unreached;
use vstd::prelude::*;

use ff_ce::Field;
use ff_ce::PrimeField;
use ff_ce::PrimeFieldRepr;
use poseidon_rs::Fr;
use poseidon_rs::FrRepr;
use poseidon_rs::Poseidon;
use sha2::Digest;

use crate::TreeError;

verus! {

#[verifier::external_type_specification]
#[verifier::external_body]
pub struct ExFr(Fr);

/// The SHA-256 digest of a byte sequence; a function of the input alone.
pub uninterp spec fn sha256_of(msg: Seq<u8>) -> Seq<u8>;

/// The canonical encoding of the field element a decimal numeral denotes.
pub uninterp spec fn u64_field_enc(n: u64) -> Seq<u8>;

/// The canonical encoding of the field product of the elements so encoded.
pub uninterp spec fn mul_field_enc(a: Seq<u8>, b: Seq<u8>) -> Seq<u8>;

/// The canonical encoding of the field sum of the elements so encoded.
pub uninterp spec fn add_field_enc(a: Seq<u8>, b: Seq<u8>) -> Seq<u8>;

/// The canonical encoding of the Poseidon permutation's output on the
/// elements so encoded, in order.
pub uninterp spec fn poseidon_enc(inputs: Seq<Seq<u8>>) -> Seq<u8>;

/// Whether a byte sequence is the canonical encoding of some field element.
pub uninterp spec fn parses_as_field(enc: Seq<u8>) -> bool;

/// The canonical encoding of the field's zero element: 32 zero bytes.
pub open spec fn zero_field_enc() -> Seq<u8> {
    Seq::new(32, |i: int| 0u8)
}

/// A field element paired with its canonical 32-byte big-endian encoding.
#[derive(Clone, Copy, Debug)]
pub struct FieldElement {
    fr: Fr,
    enc: [u8; 32],
}

impl View for FieldElement {
    type V = Seq<u8>;

    closed spec fn view(&self) -> Seq<u8> {
        self.enc@
    }
}

impl FieldElement {
    /// The canonical byte encoding, as an owned vector.
    pub fn to_bytes(&self) -> (r: Vec<u8>)
        ensures
            r@ == self@,
    {
        let mut r: Vec<u8> = Vec::new();
        let mut i: usize = 0;
        while i < 32
            invariant
                i <= 32,
                r@ == self@.take(i as int),
            decreases 32 - i,
        {
            r.push(self.enc[i]);
            proof {
                assert(self@.take(i + 1) =~= self@.take(i as int).push(self@[i as int]));
            }
            i = i + 1;
        }
        proof {
            assert(self@.take(32) =~= self@);
        }
        r
    }

    /// Whether the canonical encoding equals the given bytes.
    pub fn eq_bytes(&self, bytes: &[u8]) -> (r: bool)
        ensures
            r == (self@ == bytes@),
    {
        if bytes.len() != 32 {
            return false;
        }
        let mut i: usize = 0;
        while i < 32
            invariant
                i <= 32,
                bytes@.len() == 32,
                forall|k: int| 0 <= k < i ==> self@[k] == bytes@[k],
            decreases 32 - i,
        {
            if self.enc[i] != bytes[i] {
                return false;
            }
            i = i + 1;
        }
        proof {
            assert(self@ =~= bytes@);
        }
        true
    }

    /// Whether two elements are equal, decided on their canonical encodings.
    pub fn equals(&self, other: &FieldElement) -> (r: bool)
        ensures
            r == (self@ == other@),
    {
        let mut i: usize = 0;
        while i < 32
            invariant
                i <= 32,
                forall|k: int| 0 <= k < i ==> self@[k] == other@[k],
            decreases 32 - i,
        {
            if self.enc[i] != other.enc[i] {
                return false;
            }
            i = i + 1;
        }
        proof {
            assert(self@ =~= other@);
        }
        true
    }
}

/// Relies on sha2's `Sha256::digest`: the 32-byte SHA-256 digest, a function
/// of the input bytes alone.
#[verifier::external_body]
fn sha256_digest(msg: &[u8]) -> (r: Vec<u8>)
    ensures
        r@ == sha256_of(msg@),
        r@.len() == 32,
{
    sha2::Sha256::digest(msg).to_vec()
}

/// Relies on ff's `Field::zero`, whose canonical representation (written by
/// `PrimeField::into_repr` and `PrimeFieldRepr::write_be`) is 32 zero bytes.
#[verifier::external_body]
fn field_zero() -> (r: FieldElement)
    ensures
        r@ == zero_field_enc(),
        parses_as_field(r@),
{
    let fr = Fr::zero();
    let mut enc = [0u8; 32];
    fr.into_repr().write_be(&mut enc[..]).expect("a 32-byte buffer holds the representation");
    FieldElement { fr, enc }
}

/// Relies on ff's `PrimeField::from_str`: the decimal numeral of a u64 is
/// nonempty, has no leading zero and only digit characters, so it always
/// parses, to the field element it denotes.
#[verifier::external_body]
fn field_from_u64(n: u64) -> (r: FieldElement)
    ensures
        r@ == u64_field_enc(n),
        parses_as_field(r@),
{
    let fr = Fr::from_str(&n.to_string()).expect("a decimal numeral parses");
    let mut enc = [0u8; 32];
    fr.into_repr().write_be(&mut enc[..]).expect("a 32-byte buffer holds the representation");
    FieldElement { fr, enc }
}

/// Relies on ff's `Field::mul_assign`: the field product, a function of the
/// operands alone.
#[verifier::external_body]
fn field_mul(a: &FieldElement, b: &FieldElement) -> (r: FieldElement)
    ensures
        r@ == mul_field_enc(a@, b@),
        parses_as_field(r@),
{
    let mut fr = a.fr;
    fr.mul_assign(&b.fr);
    let mut enc = [0u8; 32];
    fr.into_repr().write_be(&mut enc[..]).expect("a 32-byte buffer holds the representation");
    FieldElement { fr, enc }
}

/// Relies on ff's `Field::add_assign`: the field sum, a function of the
/// operands alone.
#[verifier::external_body]
fn field_add(a: &FieldElement, b: &FieldElement) -> (r: FieldElement)
    ensures
        r@ == add_field_enc(a@, b@),
        parses_as_field(r@),
{
    let mut fr = a.fr;
    fr.add_assign(&b.fr);
    let mut enc = [0u8; 32];
    fr.into_repr().write_be(&mut enc[..]).expect("a 32-byte buffer holds the representation");
    FieldElement { fr, enc }
}

/// The encodings of a sequence of field elements.
pub open spec fn encs_of(s: Seq<FieldElement>) -> Seq<Seq<u8>> {
    s.map_values(|fe: FieldElement| fe@)
}

/// Relies on poseidon_rs's `Poseidon::new` and `Poseidon::hash`: the
/// permutation accepts one to six inputs and fails on every other count, and
/// its output is a function of the inputs alone.
#[verifier::external_body]
fn poseidon_hash_fields(inputs: &Vec<FieldElement>) -> (r: Result<FieldElement, String>)
    ensures
        r is Ok <==> 1 <= inputs@.len() <= 6,
        r matches Ok(f) ==> f@ == poseidon_enc(encs_of(inputs@)) && parses_as_field(f@),
{
    let frs: Vec<Fr> = inputs.iter().map(|fe| fe.fr).collect();
    match Poseidon::new().hash(frs) {
        Ok(fr) => {
            let mut enc = [0u8; 32];
            fr.into_repr().write_be(&mut enc[..]).expect(
                "a 32-byte buffer holds the representation",
            );
            Ok(FieldElement { fr, enc })
        },
        Err(e) => Err(e),
    }
}

/// Relies on ff's `PrimeFieldRepr::read_be` and `PrimeField::from_repr`:
/// exactly the canonical 32-byte big-endian encodings decode, and the decoded
/// element is the one so encoded.
#[verifier::external_body]
pub(crate) fn field_from_bytes(bytes: &[u8]) -> (r: Option<FieldElement>)
    ensures
        r is Some <==> parses_as_field(bytes@),
        r matches Some(f) ==> f@ == bytes@,
{
    if bytes.len() != 32 {
        return None;
    }
    let mut repr = FrRepr::default();
    if repr.read_be(bytes).is_err() {
        return None;
    }
    match Fr::from_repr(repr) {
        Ok(fr) => {
            let mut enc = [0u8; 32];
            enc.copy_from_slice(bytes);
            Some(FieldElement { fr, enc })
        },
        Err(_) => None,
    }
}

/// The digest bytes folded into the field from an accumulator: each byte is a
/// base-256 digit, most significant first.
pub open spec fn fold_digest_from(acc: Seq<u8>, digest: Seq<u8>) -> Seq<u8>
    decreases digest.len(),
{
    if digest.len() == 0 {
        acc
    } else {
        fold_digest_from(
            add_field_enc(mul_field_enc(acc, u64_field_enc(256)), u64_field_enc(digest[0] as u64)),
            digest.drop_first(),
        )
    }
}

/// The canonical encoding of the committed hash of a byte sequence: its
/// SHA-256 digest folded into the field from zero, then passed through the
/// Poseidon permutation as a single input.
pub open spec fn absorb_enc(msg: Seq<u8>) -> Seq<u8> {
    poseidon_enc(seq![fold_digest_from(zero_field_enc(), sha256_of(msg))])
}

/// The canonical encoding of the compression of two field elements. The
/// arguments are ordered: the left child comes first.
pub open spec fn compress_enc(a: Seq<u8>, b: Seq<u8>) -> Seq<u8> {
    poseidon_enc(seq![a, b])
}

/// The encoding of the padding element: the committed hash of no bytes.
pub open spec fn empty_hash_enc() -> Seq<u8> {
    absorb_enc(Seq::<u8>::empty())
}

proof fn lemma_fold_snoc(acc: Seq<u8>, s: Seq<u8>, x: u8)
    ensures
        fold_digest_from(acc, s.push(x)) == add_field_enc(
            mul_field_enc(fold_digest_from(acc, s), u64_field_enc(256)),
            u64_field_enc(x as u64),
        ),
    decreases s.len(),
{
    if s.len() == 0 {
        let step = add_field_enc(mul_field_enc(acc, u64_field_enc(256)), u64_field_enc(x as u64));
        assert(s.push(x)[0] == x);
        assert(s.push(x).drop_first() =~= Seq::<u8>::empty());
        assert(fold_digest_from(acc, s.push(x)) == fold_digest_from(step, s.push(x).drop_first()));
        assert(fold_digest_from(step, s.push(x).drop_first()) == step);
        assert(fold_digest_from(acc, s) == acc);
    } else {
        let step = add_field_enc(
            mul_field_enc(acc, u64_field_enc(256)),
            u64_field_enc(s[0] as u64),
        );
        assert(s.push(x)[0] == s[0]);
        assert(s.push(x).drop_first() =~= s.drop_first().push(x));
        assert(fold_digest_from(acc, s.push(x)) == fold_digest_from(step, s.drop_first().push(x)));
        assert(fold_digest_from(acc, s) == fold_digest_from(step, s.drop_first()));
        lemma_fold_snoc(step, s.drop_first(), x);
    }
}

/// Commit arbitrary bytes into the field. Deterministic: the result is a
/// function of the input bytes alone.
pub fn absorb(msg: &[u8]) -> (r: FieldElement)
    ensures
        r@ == absorb_enc(msg@),
        parses_as_field(r@),
{
    let digest = sha256_digest(msg);
    let base = field_from_u64(256);
    let mut acc = field_zero();
    let mut i: usize = 0;
    proof {
        assert(digest@.take(0) =~= Seq::<u8>::empty());
    }
    while i < digest.len()
        invariant
            i <= digest@.len(),
            digest@ == sha256_of(msg@),
            digest@.len() == 32,
            base@ == u64_field_enc(256),
            acc@ == fold_digest_from(zero_field_enc(), digest@.take(i as int)),
            parses_as_field(acc@),
        decreases digest@.len() - i,
    {
        let d = digest[i];
        let m = field_mul(&acc, &base);
        let t = field_from_u64(d as u64);
        proof {
            assert(digest@.take(i + 1) =~= digest@.take(i as int).push(d));
            lemma_fold_snoc(zero_field_enc(), digest@.take(i as int), d);
        }
        acc = field_add(&m, &t);
        i = i + 1;
    }
    proof {
        assert(digest@.take(32) =~= digest@);
    }
    let mut single: Vec<FieldElement> = Vec::new();
    single.push(acc);
    proof {
        assert(encs_of(single@) =~= seq![acc@]);
    }
    match poseidon_hash_fields(&single) {
        Ok(f) => f,
        Err(_) => unreached(),
    }
}

/// Compress two field elements into one. Order-sensitive: the left child is
/// bound into the first position.
pub fn compress(a: &FieldElement, b: &FieldElement) -> (r: FieldElement)
    ensures
        r@ == compress_enc(a@, b@),
        parses_as_field(r@),
{
    let mut pair: Vec<FieldElement> = Vec::new();
    pair.push(*a);
    pair.push(*b);
    proof {
        assert(encs_of(pair@) =~= seq![a@, b@]);
    }
    match poseidon_hash_fields(&pair) {
        Ok(f) => f,
        Err(_) => unreached(),
    }
}

/// The padding element for a missing sibling: the committed hash of no bytes.
pub fn empty_hash() -> (r: FieldElement)
    ensures
        r@ == empty_hash_enc(),
        parses_as_field(r@),
{
    let nothing: Vec<u8> = Vec::new();
    let r = absorb(nothing.as_slice());
    proof {
        assert(nothing@ =~= Seq::<u8>::empty());
    }
    r
}

/// Commit arbitrary bytes into the field. Kept fallible for defensive
/// callers, but the conversion is total: the result is always `Ok`.
pub fn gen_poseidon_hash(msg: &[u8]) -> (r: Result<FieldElement, TreeError>)
    ensures
        r is Ok,
        r matches Ok(f) ==> f@ == absorb_enc(msg@) && parses_as_field(f@),
{
    Ok(absorb(msg))
}

/// Hash a sequence of field elements with the Poseidon permutation. Succeeds
/// exactly on one to six inputs.
pub fn gen_poseidon_hash_by_fr(elems: Vec<FieldElement>) -> (r: Result<FieldElement, TreeError>)
    ensures
        r is Ok <==> 1 <= elems@.len() <= 6,
        r matches Ok(f) ==> f@ == poseidon_enc(encs_of(elems@)) && parses_as_field(f@),
        r is Err ==> r == Err::<FieldElement, TreeError>(TreeError::InvalidArity),
{
    match poseidon_hash_fields(&elems) {
        Ok(f) => Ok(f),
        Err(_) => Err(TreeError::InvalidArity),
    }
}

} // verus!
