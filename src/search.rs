//! Scanning index ranges for a key that reproduces the target tag, and the
//! search over increasing lengths.
use vstd::arithmetic::power::*;
use vstd::prelude::*;

use crate::candidate::{candidate, decode_into, key_buffer, space_size, MAX_KEY_LEN};
use crate::mac::{hmac_sha256, key_verifies, lemma_round_trip, verify, MAX_HMAC_INPUT_LEN};
use crate::partition::{
    boundary, covered, in_range, index_space, lemma_partition_covers, partition,
};
use crate::signal::FoundFlag;

verus! {

/// Why a search configuration is refused before any work starts.
#[derive(PartialEq, Eq, Structural, Debug, Clone, Copy)]
pub enum SearchError {
    /// The maximum length exceeds `MAX_KEY_LEN`.
    KeyTooLong,
    /// `|alphabet|^max_length` does not fit in a `u64`.
    IndexSpaceOverflow,
}

/// How the scan of one range ended.
#[derive(PartialEq, Eq, Debug)]
pub enum ScanOutcome {
    /// This key, of the range, reproduces the target tag.
    Found(Vec<u8>),
    /// The found flag was seen set before the range was done.
    Cancelled,
    /// No key of the range reproduces the target tag.
    Exhausted,
}

/// The key of `index` at `length` reproduces `target`.
pub open spec fn index_matches(
    alphabet: Seq<u8>,
    length: nat,
    index: nat,
    signing_input: Seq<u8>,
    target: Seq<u8>,
) -> bool {
    key_verifies(candidate(index, length, alphabet), signing_input, target)
}

/// `key` has a length in `1..=max_length`, is made of the alphabet, and
/// reproduces `target`.
pub open spec fn is_solution(
    alphabet: Seq<u8>,
    max_length: nat,
    signing_input: Seq<u8>,
    target: Seq<u8>,
    key: Seq<u8>,
) -> bool {
    exists|length: nat, index: nat|
        1 <= length <= max_length && index < space_size(alphabet.len(), length) && key
            == #[trigger] candidate(index, length, alphabet) && key_verifies(
            key,
            signing_input,
            target,
        )
}

/// No key of length `1..=max_length` over the alphabet reproduces `target`.
pub open spec fn no_solution(
    alphabet: Seq<u8>,
    max_length: nat,
    signing_input: Seq<u8>,
    target: Seq<u8>,
) -> bool {
    forall|length: nat, index: nat|
        1 <= length <= max_length && index < space_size(alphabet.len(), length)
            ==> !#[trigger] index_matches(alphabet, length, index, signing_input, target)
}

/// What a completed search may report: a solution, or nothing where there is none.
pub open spec fn search_outcome(
    alphabet: Seq<u8>,
    max_length: nat,
    signing_input: Seq<u8>,
    target: Seq<u8>,
    r: Option<Seq<u8>>,
) -> bool {
    match r {
        Some(key) => is_solution(alphabet, max_length, signing_input, target, key),
        None => no_solution(alphabet, max_length, signing_input, target),
    }
}

/// The configuration has no work in it: no symbols, or no length to try.
pub open spec fn is_degenerate(alphabet_len: nat, max_length: nat) -> bool {
    alphabet_len == 0 || max_length == 0
}

/// Decodes the candidate of `index` into `buf`, whose length is the
/// candidate's length, and checks it against `target`.
pub fn check_candidate(
    index: u64,
    alphabet: &[u8],
    signing_input: &[u8],
    target: &[u8],
    buf: &mut Vec<u8>,
) -> (r: bool)
    requires
        old(buf)@.len() <= MAX_KEY_LEN,
        signing_input@.len() <= MAX_HMAC_INPUT_LEN,
        index < space_size(alphabet@.len(), old(buf)@.len()),
    ensures
        final(buf)@.len() == old(buf)@.len(),
        final(buf)@ == candidate(index as nat, old(buf)@.len(), alphabet@),
        r == index_matches(alphabet@, old(buf)@.len(), index as nat, signing_input@, target@),
{
    match decode_into(index, alphabet, buf) {
        Ok(()) => verify(buf.as_slice(), signing_input, target),
        Err(_) => false,
    }
}

/// Checks the candidates of `[start, end)` in order, reading `flag` before
/// each one, and stops at the first key that reproduces `target`.
pub fn scan_range(
    flag: &FoundFlag,
    start: u64,
    end: u64,
    length: usize,
    alphabet: &[u8],
    signing_input: &[u8],
    target: &[u8],
) -> (r: ScanOutcome)
    requires
        length <= MAX_KEY_LEN,
        signing_input@.len() <= MAX_HMAC_INPUT_LEN,
        start <= end <= space_size(alphabet@.len(), length as nat),
    ensures
        r matches ScanOutcome::Found(k) ==> k@.len() == length,
        r matches ScanOutcome::Found(k) ==> exists|i: nat|
            start <= i < end && k@ == #[trigger] candidate(i, length as nat, alphabet@)
                && index_matches(alphabet@, length as nat, i, signing_input@, target@) && forall|
                j: nat,
            |
                start <= j < i ==> !#[trigger] index_matches(
                    alphabet@,
                    length as nat,
                    j,
                    signing_input@,
                    target@,
                ),
        r is Cancelled ==> start < end,
        r is Exhausted ==> forall|i: nat|
            start <= i < end ==> !#[trigger] index_matches(
                alphabet@,
                length as nat,
                i,
                signing_input@,
                target@,
            ),
{
    let mut buf = key_buffer(length);
    let mut i: u64 = start;
    while i < end
        invariant
            length <= MAX_KEY_LEN,
            signing_input@.len() <= MAX_HMAC_INPUT_LEN,
            buf@.len() == length,
            start <= i <= end,
            end <= space_size(alphabet@.len(), length as nat),
            forall|j: nat|
                start <= j < i ==> !#[trigger] index_matches(
                    alphabet@,
                    length as nat,
                    j,
                    signing_input@,
                    target@,
                ),
        decreases end - i,
    {
        if flag.is_found() {
            return ScanOutcome::Cancelled;
        }
        if check_candidate(i, alphabet, signing_input, target, &mut buf) {
            return ScanOutcome::Found(buf);
        }
        i = i + 1;
    }
    ScanOutcome::Exhausted
}

/// Checks the candidates of `[start, end)` in order and returns the first key
/// that reproduces `target`.
pub fn find_in_range(
    start: u64,
    end: u64,
    length: usize,
    alphabet: &[u8],
    signing_input: &[u8],
    target: &[u8],
) -> (r: Option<Vec<u8>>)
    requires
        length <= MAX_KEY_LEN,
        signing_input@.len() <= MAX_HMAC_INPUT_LEN,
        start <= end <= space_size(alphabet@.len(), length as nat),
    ensures
        r matches Some(k) ==> k@.len() == length,
        r matches Some(k) ==> exists|i: nat|
            start <= i < end && k@ == #[trigger] candidate(i, length as nat, alphabet@)
                && index_matches(alphabet@, length as nat, i, signing_input@, target@) && forall|
                j: nat,
            |
                start <= j < i ==> !#[trigger] index_matches(
                    alphabet@,
                    length as nat,
                    j,
                    signing_input@,
                    target@,
                ),
        r is None ==> forall|i: nat|
            start <= i < end ==> !#[trigger] index_matches(
                alphabet@,
                length as nat,
                i,
                signing_input@,
                target@,
            ),
{
    let mut buf = key_buffer(length);
    let mut i: u64 = start;
    while i < end
        invariant
            length <= MAX_KEY_LEN,
            signing_input@.len() <= MAX_HMAC_INPUT_LEN,
            buf@.len() == length,
            start <= i <= end,
            end <= space_size(alphabet@.len(), length as nat),
            forall|j: nat|
                start <= j < i ==> !#[trigger] index_matches(
                    alphabet@,
                    length as nat,
                    j,
                    signing_input@,
                    target@,
                ),
        decreases end - i,
    {
        if check_candidate(i, alphabet, signing_input, target, &mut buf) {
            return Some(buf);
        }
        i = i + 1;
    }
    None
}

/// Refuses a configuration whose index spaces cannot all be counted in a
/// `u64`; a degenerate one is accepted, as it has nothing to count.
pub fn validate(alphabet_len: usize, max_length: usize) -> (r: Result<(), SearchError>)
    ensures
        is_degenerate(alphabet_len as nat, max_length as nat) ==> r is Ok,
        !is_degenerate(alphabet_len as nat, max_length as nat) && max_length > MAX_KEY_LEN ==> r
            == Err::<(), SearchError>(SearchError::KeyTooLong),
        !is_degenerate(alphabet_len as nat, max_length as nat) && max_length <= MAX_KEY_LEN ==> (r
            is Ok <==> space_size(alphabet_len as nat, max_length as nat) <= u64::MAX),
        !is_degenerate(alphabet_len as nat, max_length as nat) && max_length <= MAX_KEY_LEN && r
            is Err ==> r == Err::<(), SearchError>(SearchError::IndexSpaceOverflow),
{
    if alphabet_len == 0 || max_length == 0 {
        return Ok(());
    }
    if max_length > MAX_KEY_LEN {
        return Err(SearchError::KeyTooLong);
    }
    match index_space(alphabet_len, max_length) {
        Some(_) => Ok(()),
        None => Err(SearchError::IndexSpaceOverflow),
    }
}

/// The ranges of the `workers` workers for candidates of `length` symbols.
pub fn length_ranges(alphabet_len: usize, length: usize, max_length: usize, workers: usize) -> (r:
    Vec<(u64, u64)>)
    requires
        workers >= 1,
        alphabet_len > 0,
        1 <= length <= max_length <= MAX_KEY_LEN,
        space_size(alphabet_len as nat, max_length as nat) <= u64::MAX,
    ensures
        r@.len() == workers,
        forall|i: int|
            0 <= i < workers ==> r@[i].0 == boundary(
                space_size(alphabet_len as nat, length as nat),
                workers as int,
                i,
            ) && r@[i].1 == boundary(
                space_size(alphabet_len as nat, length as nat),
                workers as int,
                i + 1,
            ),
        forall|i: int| 0 <= i < workers ==> r@[i].0 <= r@[i].1,
        forall|i: int|
            0 <= i < workers ==> r@[i].1 <= space_size(alphabet_len as nat, length as nat),
{
    proof {
        lemma_pow_increases(alphabet_len as nat, length as nat, max_length as nat);
    }
    let total: u64 = match index_space(alphabet_len, length) {
        Some(t) => t,
        None => {
            proof {
                assert(false);
            }
            0
        },
    };
    let r = partition(total, workers);
    proof {
        lemma_partition_covers(total as nat, workers as nat);
        assert forall|i: int| 0 <= i < workers implies r@[i].1 <= total by {
            assert(boundary(total as int, workers as int, i + 1) <= total);
        }
    }
    r
}

/// Searches lengths `1..=max_length` in increasing order; each length's index
/// space is cut into `workers` ranges, scanned one after the other. Returns the
/// first key found, or `None` once every candidate has been checked.
pub fn search(
    alphabet: &[u8],
    max_length: usize,
    workers: usize,
    signing_input: &[u8],
    target: &[u8],
) -> (r: Result<Option<Vec<u8>>, SearchError>)
    requires
        workers >= 1,
        signing_input@.len() <= MAX_HMAC_INPUT_LEN,
    ensures
        is_degenerate(alphabet@.len(), max_length as nat) ==> r == Ok::<
            Option<Vec<u8>>,
            SearchError,
        >(None),
        !is_degenerate(alphabet@.len(), max_length as nat) && max_length > MAX_KEY_LEN ==> r
            == Err::<Option<Vec<u8>>, SearchError>(SearchError::KeyTooLong),
        !is_degenerate(alphabet@.len(), max_length as nat) && max_length <= MAX_KEY_LEN
            && space_size(alphabet@.len(), max_length as nat) > u64::MAX ==> r == Err::<
            Option<Vec<u8>>,
            SearchError,
        >(SearchError::IndexSpaceOverflow),
        !is_degenerate(alphabet@.len(), max_length as nat) && max_length <= MAX_KEY_LEN
            && space_size(alphabet@.len(), max_length as nat) <= u64::MAX ==> r is Ok,
        r matches Ok(Some(k)) ==> forall|l: nat, i: nat|
            1 <= l < k@.len() && i < space_size(alphabet@.len(), l) ==> !#[trigger] index_matches(
                alphabet@,
                l,
                i,
                signing_input@,
                target@,
            ),
        r matches Ok(found) ==> search_outcome(
            alphabet@,
            max_length as nat,
            signing_input@,
            target@,
            match found {
                Some(k) => Some(k@),
                None => None,
            },
        ),
{
    if alphabet.len() == 0 || max_length == 0 {
        proof {
            assert forall|l: nat, i: nat|
                1 <= l <= max_length && i < space_size(alphabet@.len(), l)
                    implies !#[trigger] index_matches(
                    alphabet@,
                    l,
                    i,
                    signing_input@,
                    target@,
                ) by {
                lemma0_pow(l);
            }
        }
        return Ok(None);
    }
    match validate(alphabet.len(), max_length) {
        Ok(()) => {},
        Err(e) => {
            return Err(e);
        },
    }
    let mut length: usize = 1;
    while length <= max_length
        invariant
            workers >= 1,
            signing_input@.len() <= MAX_HMAC_INPUT_LEN,
            alphabet@.len() > 0,
            1 <= length <= max_length + 1,
            max_length <= MAX_KEY_LEN,
            space_size(alphabet@.len(), max_length as nat) <= u64::MAX,
            forall|l: nat, i: nat|
                1 <= l < length && i < space_size(alphabet@.len(), l) ==> !#[trigger] index_matches(
                    alphabet@,
                    l,
                    i,
                    signing_input@,
                    target@,
                ),
        decreases max_length + 1 - length,
    {
        let ranges = length_ranges(alphabet.len(), length, max_length, workers);
        let ghost total = space_size(alphabet@.len(), length as nat);
        let mut w: usize = 0;
        while w < workers
            invariant
                w <= workers,
                signing_input@.len() <= MAX_HMAC_INPUT_LEN,
                forall|l: nat, i: nat|
                    1 <= l < length && i < space_size(alphabet@.len(), l)
                        ==> !#[trigger] index_matches(
                        alphabet@,
                        l,
                        i,
                        signing_input@,
                        target@,
                    ),
                alphabet@.len() > 0,
                1 <= length,
                space_size(alphabet@.len(), max_length as nat) <= u64::MAX,
                ranges@.len() == workers,
                length <= max_length <= MAX_KEY_LEN,
                forall|k: int|
                    0 <= k < workers ==> ranges@[k].0 == boundary(total, workers as int, k)
                        && ranges@[k].1 == boundary(total, workers as int, k + 1),
                forall|k: int| 0 <= k < workers ==> ranges@[k].0 <= ranges@[k].1,
                forall|k: int| 0 <= k < workers ==> ranges@[k].1 <= total,
                total == space_size(alphabet@.len(), length as nat),
                forall|k: int, i: int|
                    0 <= k < w && #[trigger] in_range(total, workers as int, k, i)
                        ==> !index_matches(
                        alphabet@,
                        length as nat,
                        i as nat,
                        signing_input@,
                        target@,
                    ),
            decreases workers - w,
        {
            let (start, end) = ranges[w];
            match find_in_range(start, end, length, alphabet, signing_input, target) {
                Some(key) => {
                    return Ok(Some(key));
                },
                None => {},
            }
            proof {
                assert forall|k: int, i: int|
                    0 <= k < w + 1 && #[trigger] in_range(total, workers as int, k, i)
                        implies !index_matches(
                        alphabet@,
                        length as nat,
                        i as nat,
                        signing_input@,
                        target@,
                    ) by {
                    if k == w {
                        assert(start <= i < end);
                        assert(!index_matches(
                            alphabet@,
                            length as nat,
                            i as nat,
                            signing_input@,
                            target@,
                        ));
                    }
                }
            }
            w = w + 1;
        }
        proof {
            lemma_partition_covers(total as nat, workers as nat);
            assert forall|l: nat, i: nat|
                1 <= l < length + 1 && i < space_size(alphabet@.len(), l)
                    implies !#[trigger] index_matches(
                    alphabet@,
                    l,
                    i,
                    signing_input@,
                    target@,
                ) by {
                if l == length {
                    assert(covered(total, workers as int, i as int));
                    let k = choose|k: int|
                        0 <= k < workers && #[trigger] in_range(total, workers as int, k, i as int);
                    assert(in_range(total, workers as int, k, i as int));
                }
            }
        }
        length = length + 1;
    }
    Ok(None)
}

/// Where exactly one key of length `1..=max_length` reproduces the target, a
/// search that completes reports that key; the worker count does not enter.
pub proof fn lemma_unique_key_reported(
    alphabet: Seq<u8>,
    max_length: nat,
    signing_input: Seq<u8>,
    target: Seq<u8>,
    key: Seq<u8>,
    r: Option<Seq<u8>>,
)
    requires
        is_solution(alphabet, max_length, signing_input, target, key),
        forall|k: Seq<u8>|
            #[trigger] is_solution(alphabet, max_length, signing_input, target, k) ==> k == key,
        search_outcome(alphabet, max_length, signing_input, target, r),
    ensures
        r == Some(key),
{
    if r is None {
        let (l, i) = choose|l: nat, i: nat|
            1 <= l <= max_length && i < space_size(alphabet.len(), l) && key == #[trigger] candidate(
                i,
                l,
                alphabet,
            ) && key_verifies(key, signing_input, target);
        assert(index_matches(alphabet, l, i, signing_input, target));
    }
}

/// A key of the searched lengths, made of the alphabet, whose own tag is the
/// target is never missed: a search that completes reports some key.
pub proof fn lemma_own_tag_found(
    alphabet: Seq<u8>,
    max_length: nat,
    signing_input: Seq<u8>,
    length: nat,
    index: nat,
    r: Option<Seq<u8>>,
)
    requires
        1 <= length <= max_length,
        index < space_size(alphabet.len(), length),
        search_outcome(
            alphabet,
            max_length,
            signing_input,
            hmac_sha256(candidate(index, length, alphabet), signing_input),
            r,
        ),
    ensures
        r is Some,
{
    let key = candidate(index, length, alphabet);
    lemma_round_trip(key, signing_input);
    assert(index_matches(alphabet, length, index, signing_input, hmac_sha256(key, signing_input)));
}

} // verus!
