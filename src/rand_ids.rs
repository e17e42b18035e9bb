//! Random session codes and random turn orders.
use nanorand::Rng;
use nanorand::WyRand;
use vstd::prelude::*;

verus! {

/// Length of a generated session code.
pub const SESSION_CODE_LEN: usize = 5;

/// A session code: `SESSION_CODE_LEN` upper-case ASCII letters.
pub open spec fn is_session_code(s: Seq<char>) -> bool {
    &&& s.len() == SESSION_CODE_LEN
    &&& forall|i: int| 0 <= i < s.len() ==> 'A' <= #[trigger] s[i] <= 'Z'
}

/// Relies on `nanoid::format` with `nanoid::rngs::default`: it keeps drawing
/// random bytes and appends `alphabet[byte & mask]` whenever that index is in
/// range, returning once the string is `size` bytes long. With an ASCII
/// alphabet that is `size` characters, each from `alphabet`.
#[verifier::external_body]
fn random_code(alphabet: &[char], size: usize) -> (code: String)
    requires
        0 < alphabet@.len() <= 255,
        forall|i: int| 0 <= i < alphabet@.len() ==> (#[trigger] alphabet@[i] as u32) < 128,
        0 < size <= usize::MAX / 8,
    ensures
        code@.len() == size,
        forall|i: int| 0 <= i < code@.len() ==> alphabet@.contains(#[trigger] code@[i]),
{
    nanoid::format(nanoid::rngs::default, alphabet, size)
}

/// Relies on `nanorand::WyRand::new`: a generator seeded from system entropy.
/// Nothing is promised of its state.
pub assume_specification[ WyRand::new ]() -> WyRand;

/// The generator type of `nanorand`, carried as an opaque value.
#[verifier::external_type_specification]
#[verifier::external_body]
pub struct ExWyRand(WyRand);

/// Relies on `nanorand::Rng::shuffle`: it only swaps entries of the slice,
/// so the result holds the same entries, in some order.
#[verifier::external_body]
fn shuffle_in_place(rng: &mut WyRand, ids: &mut Vec<String>)
    ensures
        final(ids)@.len() == old(ids)@.len(),
        final(ids)@.to_multiset() == old(ids)@.to_multiset(),
{
    rng.shuffle(ids.as_mut_slice())
}

/// A fresh random session code of upper-case letters.
pub fn get_rand_session_id() -> (code: String)
    ensures
        is_session_code(code@),
{
    let alphabet: Vec<char> = vec![
        'A', 'B', 'C', 'D', 'E', 'F', 'G', 'H', 'I', 'J', 'K', 'L', 'M',
        'N', 'O', 'P', 'Q', 'R', 'S', 'T', 'U', 'V', 'W', 'X', 'Y', 'Z',
    ];
    assert(forall|i: int| 0 <= i < alphabet@.len() ==> 'A' <= #[trigger] alphabet@[i] <= 'Z');
    let code = random_code(alphabet.as_slice(), SESSION_CODE_LEN);
    assert forall|i: int| 0 <= i < code@.len() implies 'A' <= #[trigger] code@[i] <= 'Z' by {
        assert(alphabet@.contains(code@[i]));
    }
    code
}

/// The given identities in a random order.
pub fn shuffled(ids: Vec<String>) -> (r: Vec<String>)
    ensures
        r@.len() == ids@.len(),
        r@.to_multiset() == ids@.to_multiset(),
{
    let mut rng = WyRand::new();
    let mut order = ids;
    shuffle_in_place(&mut rng, &mut order);
    order
}

} // verus!
