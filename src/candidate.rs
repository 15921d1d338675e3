//! Numbering of candidate keys: an index read as a base-|alphabet| number with a
//! fixed count of digits, the most significant digit first.
use vstd::arithmetic::div_mod::*;
use vstd::arithmetic::power::*;
use vstd::prelude::*;

verus! {

/// Longest candidate key that the decoder builds.
pub const MAX_KEY_LEN: usize = 64;

/// Why an index could not be turned into a candidate key.
#[derive(PartialEq, Eq, Structural, Debug, Clone, Copy)]
pub enum DecodeError {
    /// The requested length exceeds `MAX_KEY_LEN`.
    LengthTooLong,
    /// The index is not below `|alphabet|^length`.
    IndexOutOfRange,
}

/// Number of candidates of the given length over an alphabet of `a` symbols.
pub open spec fn space_size(a: nat, length: nat) -> int {
    pow(a as int, length)
}

/// The key that `index` stands for: its last symbol is the index's least
/// significant base-|alphabet| digit, the rest is the key of `index / |alphabet|`.
pub open spec fn candidate(index: nat, length: nat, alphabet: Seq<u8>) -> Seq<u8>
    decreases length,
{
    if length == 0 {
        Seq::empty()
    } else {
        candidate(index / alphabet.len(), (length - 1) as nat, alphabet).push(
            alphabet[(index % alphabet.len()) as int],
        )
    }
}

/// `pow(a, n + 1)` unfolded once.
proof fn lemma_pow_succ(a: int, n: nat)
    ensures
        pow(a, n + 1) == a * pow(a, n),
{
    reveal(pow);
}

/// Writes the key that `index` stands for into `buf`, whose length is the
/// key's length; the buffer keeps its length, so one buffer serves every
/// candidate of a length. On `LengthTooLong` it is left as it was.
pub fn decode_into(index: u64, alphabet: &[u8], buf: &mut Vec<u8>) -> (r: Result<(), DecodeError>)
    ensures
        final(buf)@.len() == old(buf)@.len(),
        old(buf)@.len() > MAX_KEY_LEN ==> r == Err::<(), DecodeError>(DecodeError::LengthTooLong)
            && final(buf)@ == old(buf)@,
        old(buf)@.len() <= MAX_KEY_LEN && index >= space_size(alphabet@.len(), old(buf)@.len())
            ==> r == Err::<(), DecodeError>(DecodeError::IndexOutOfRange),
        old(buf)@.len() <= MAX_KEY_LEN && index < space_size(alphabet@.len(), old(buf)@.len())
            ==> r is Ok && final(buf)@ == candidate(index as nat, old(buf)@.len(), alphabet@),
{
    let length = buf.len();
    if length > MAX_KEY_LEN {
        return Err(DecodeError::LengthTooLong);
    }
    let a = alphabet.len();
    if a == 0 {
        proof {
            reveal(pow);
            if length > 0 {
                lemma0_pow(length as nat);
            }
        }
        if length == 0 && index == 0 {
            proof {
                assert(buf@ =~= candidate(0, 0, alphabet@));
            }
            return Ok(());
        }
        return Err(DecodeError::IndexOutOfRange);
    }
    let mut cur: u64 = index;
    let mut pos: usize = length;
    proof {
        reveal(pow);
        assert(buf@.subrange(length as int, length as int) =~= Seq::<u8>::empty());
    }
    while pos > 0
        invariant
            pos <= length,
            buf@.len() == length,
            a == alphabet@.len(),
            a > 0,
            pow(a as int, (length - pos) as nat) > 0,
            cur as int == index as int / pow(a as int, (length - pos) as nat),
            candidate(index as nat, length as nat, alphabet@) == candidate(
                cur as nat,
                pos as nat,
                alphabet@,
            ) + buf@.subrange(pos as int, length as int),
        decreases pos,
    {
        let d = (cur % (a as u64)) as usize;
        let ghost old_buf = buf@;
        let ghost k = (length - pos) as nat;
        pos = pos - 1;
        buf.set(pos, alphabet[d]);
        proof {
            assert(buf@.subrange(pos as int, length as int) =~= seq![alphabet@[d as int]]
                + old_buf.subrange(pos + 1, length as int));
            assert(candidate(cur as nat, (pos + 1) as nat, alphabet@) == candidate(
                cur as nat / a as nat,
                pos as nat,
                alphabet@,
            ).push(alphabet@[d as int]));
            assert(candidate(index as nat, length as nat, alphabet@) =~= candidate(
                cur as nat / a as nat,
                pos as nat,
                alphabet@,
            ) + buf@.subrange(pos as int, length as int));
            lemma_div_denominator(index as int, pow(a as int, k), a as int);
            lemma_pow_succ(a as int, k);
            assert(pow(a as int, k) * a == a * pow(a as int, k)) by (nonlinear_arith);
            assert((length - pos) as nat == k + 1);
            lemma_pow_positive(a as int, k + 1);
        }
        cur = cur / (a as u64);
    }
    let ghost p = pow(a as int, length as nat);
    proof {
        assert(buf@.subrange(0, length as int) =~= buf@);
        if index < p {
            lemma_basic_div_specific_divisor(p);
        } else {
            lemma_div_non_zero(index as int, p);
        }
    }
    if cur != 0 {
        Err(DecodeError::IndexOutOfRange)
    } else {
        Ok(())
    }
}

/// A buffer of `length` zero bytes.
pub fn key_buffer(length: usize) -> (r: Vec<u8>)
    ensures
        r@.len() == length,
{
    let mut buf: Vec<u8> = Vec::new();
    while buf.len() < length
        invariant
            buf@.len() <= length,
        decreases length - buf@.len(),
    {
        buf.push(0u8);
    }
    buf
}

/// Builds the key that `index` stands for, with `length` symbols of `alphabet`.
pub fn decode(index: u64, length: usize, alphabet: &[u8]) -> (r: Result<Vec<u8>, DecodeError>)
    ensures
        length > MAX_KEY_LEN ==> r == Err::<Vec<u8>, DecodeError>(DecodeError::LengthTooLong),
        length <= MAX_KEY_LEN && index >= space_size(alphabet@.len(), length as nat) ==> r
            == Err::<Vec<u8>, DecodeError>(DecodeError::IndexOutOfRange),
        length <= MAX_KEY_LEN && index < space_size(alphabet@.len(), length as nat) ==> (r matches Ok(
            v,
        ) && v@ == candidate(index as nat, length as nat, alphabet@)),
{
    if length > MAX_KEY_LEN {
        return Err(DecodeError::LengthTooLong);
    }
    let mut buf = key_buffer(length);
    match decode_into(index, alphabet, &mut buf) {
        Ok(()) => Ok(buf),
        Err(e) => Err(e),
    }
}

/// No symbol occurs twice in `alphabet`.
pub open spec fn distinct_symbols(alphabet: Seq<u8>) -> bool {
    forall|i: int, j: int| 0 <= i < j < alphabet.len() ==> alphabet[i] != alphabet[j]
}

/// Over an alphabet of distinct symbols, distinct indices below
/// `|alphabet|^length` stand for distinct keys.
pub proof fn lemma_candidate_injective(alphabet: Seq<u8>, length: nat, i: nat, j: nat)
    requires
        distinct_symbols(alphabet),
        i < space_size(alphabet.len(), length),
        j < space_size(alphabet.len(), length),
        candidate(i, length, alphabet) == candidate(j, length, alphabet),
    ensures
        i == j,
    decreases length,
{
    let a = alphabet.len() as int;
    if length == 0 {
        reveal(pow);
    } else {
        let n = (length - 1) as nat;
        if a == 0 {
            lemma0_pow(length);
        }
        lemma_pow_succ(a, n);
        let p = pow(a, n);
        let x = i as int;
        let y = j as int;
        lemma_fundamental_div_mod(x, a);
        lemma_fundamental_div_mod(y, a);
        lemma_mod_pos_bound(x, a);
        lemma_mod_pos_bound(y, a);
        lemma_div_pos_is_pos(x, a);
        lemma_div_pos_is_pos(y, a);
        assert(x / a < p) by (nonlinear_arith)
            requires
                x == a * (x / a) + x % a,
                x % a >= 0,
                x < a * p,
                a > 0,
        ;
        assert(y / a < p) by (nonlinear_arith)
            requires
                y == a * (y / a) + y % a,
                y % a >= 0,
                y < a * p,
                a > 0,
        ;
        let ci = candidate(i, length, alphabet);
        let cj = candidate(j, length, alphabet);
        assert(ci.last() == alphabet[x % a]);
        assert(cj.last() == alphabet[y % a]);
        assert(ci.drop_last() =~= candidate(i / (a as nat), n, alphabet));
        assert(cj.drop_last() =~= candidate(j / (a as nat), n, alphabet));
        lemma_candidate_injective(alphabet, n, i / (a as nat), j / (a as nat));
    }
}

/// Every key of symbols of the alphabet is the candidate of some index below
/// `|alphabet|^|key|`.
pub proof fn lemma_candidate_onto(alphabet: Seq<u8>, key: Seq<u8>)
    requires
        forall|k: int| 0 <= k < key.len() ==> alphabet.contains(#[trigger] key[k]),
    ensures
        exists|i: nat|
            i < space_size(alphabet.len(), key.len()) && #[trigger] candidate(
                i,
                key.len(),
                alphabet,
            ) == key,
    decreases key.len(),
{
    let a = alphabet.len() as int;
    if key.len() == 0 {
        reveal(pow);
        assert(candidate(0, 0, alphabet) =~= key);
    } else {
        let n = (key.len() - 1) as nat;
        let prefix = key.drop_last();
        assert forall|k: int| 0 <= k < prefix.len() implies alphabet.contains(
            #[trigger] prefix[k],
        ) by {
            assert(prefix[k] == key[k]);
        }
        lemma_candidate_onto(alphabet, prefix);
        let i0 = choose|i: nat| i < space_size(a as nat, n) && #[trigger] candidate(i, n, alphabet) == prefix;
        assert(alphabet.contains(key[key.len() - 1]));
        let d = choose|d: int| 0 <= d < a && alphabet[d] == key[key.len() - 1];
        let i = i0 * a + d;
        lemma_fundamental_div_mod_converse(i, a, i0 as int, d);
        lemma_pow_succ(a, n);
        assert(i < pow(a, n) * a) by (nonlinear_arith)
            requires
                i == i0 * a + d,
                0 <= d < a,
                i0 < pow(a, n),
        ;
        assert(pow(a, n) * a == a * pow(a, n)) by (nonlinear_arith);
        assert(candidate(i as nat, key.len(), alphabet) =~= key);
    }
}

} // verus!
