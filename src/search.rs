//! Match policies over address text and the brute-force search for an
//! address that satisfies one.
//!
//! Case-insensitive matching lowercases both sides before comparing. Base58
//! keeps upper and lower case letters apart, so this is a convenience for
//! people reading addresses, not an equivalence of addresses.
use vstd::prelude::*;
use vstd::string::*;

use crate::address::{lemma_address_shape, lemma_generated_address_verifies, BitcoinAddress};
use crate::base58::is_symbol;
use crate::primitives::{all_ascii, ascii_lower, ascii_lower_char, lower_of, lowercase};

verus! {

/// How often, in attempts, the search reports progress.
pub const PROGRESS_INTERVAL: u64 = 50000;

/// `needle` occurs in `hay` as a contiguous run.
pub open spec fn contains_seq(hay: Seq<char>, needle: Seq<char>) -> bool {
    exists|i: int|
        0 <= i && i + needle.len() <= hay.len() && #[trigger] hay.subrange(i, i + needle.len())
            == needle
}

/// `s` begins with `prefix`.
pub open spec fn starts_with_seq(s: Seq<char>, prefix: Seq<char>) -> bool {
    prefix.len() <= s.len() && s.subrange(0, prefix.len() as int) == prefix
}

/// Substring policy: `target` occurs in the address; without case
/// sensitivity both are lowercased first.
pub open spec fn substring_match(address: Seq<char>, target: Seq<char>, case_sensitive: bool) -> bool {
    if case_sensitive {
        contains_seq(address, target)
    } else {
        contains_seq(lower_of(address), lower_of(target))
    }
}

/// Prefix policy: the address without its fixed leading `'1'` begins with
/// `prefix`; without case sensitivity both are lowercased first.
pub open spec fn prefix_match(address: Seq<char>, prefix: Seq<char>, case_sensitive: bool) -> bool {
    address.len() >= 1 && if case_sensitive {
        starts_with_seq(address.skip(1), prefix)
    } else {
        starts_with_seq(lower_of(address.skip(1)), lower_of(prefix))
    }
}

/// The characters of `s`.
fn chars_of(s: &str) -> (r: Vec<char>)
    ensures
        r@ == s@,
{
    let n = s.unicode_len();
    let mut r: Vec<char> = Vec::new();
    let mut i: usize = 0;
    while i < n
        invariant
            n == s@.len(),
            i <= n,
            r@ == s@.take(i as int),
        decreases n - i,
    {
        r.push(s.get_char(i));
        assert(s@.take(i + 1) =~= s@.take(i as int).push(s@[i as int]));
        i += 1;
    }
    assert(s@.take(n as int) =~= s@);
    r
}

/// Whether `needle` stands in `hay` from position `at`.
fn occurs_at(hay: &Vec<char>, needle: &Vec<char>, at: usize) -> (r: bool)
    requires
        at + needle.len() <= hay.len(),
    ensures
        r == (hay@.subrange(at as int, at + needle.len()) == needle@),
{
    let mut k: usize = 0;
    while k < needle.len()
        invariant
            at + needle.len() <= hay.len(),
            k <= needle.len(),
            forall|j: int| 0 <= j < k ==> hay[at + j] == needle[j],
        decreases needle.len() - k,
    {
        if hay[at + k] != needle[k] {
            assert(hay@.subrange(at as int, at + needle.len())[k as int] != needle@[k as int]);
            return false;
        }
        k += 1;
    }
    assert(hay@.subrange(at as int, at + needle.len()) =~= needle@);
    true
}

/// Whether `needle` occurs in `hay`.
pub fn contains_text(hay: &str, needle: &str) -> (r: bool)
    ensures
        r == contains_seq(hay@, needle@),
{
    let h = chars_of(hay);
    let n = chars_of(needle);
    if n.len() > h.len() {
        return false;
    }
    let last = h.len() - n.len();
    let mut i: usize = 0;
    while i <= last
        invariant
            last == h.len() - n.len(),
            h@ == hay@,
            n@ == needle@,
            i <= last,
            forall|k: int| 0 <= k < i ==> #[trigger] h@.subrange(k, k + n.len()) != n@,
        decreases last + 1 - i,
    {
        if occurs_at(&h, &n, i) {
            return true;
        }
        if i == last {
            return false;
        }
        i += 1;
    }
    false
}

/// Whether `s` begins with `prefix`.
pub fn starts_with_text(s: &str, prefix: &str) -> (r: bool)
    ensures
        r == starts_with_seq(s@, prefix@),
{
    let h = chars_of(s);
    let p = chars_of(prefix);
    if p.len() > h.len() {
        return false;
    }
    occurs_at(&h, &p, 0)
}

/// The substring policy on an address.
pub fn matches_substring(address: &str, target: &str, case_sensitive: bool) -> (r: bool)
    ensures
        r == substring_match(address@, target@, case_sensitive),
        !case_sensitive && all_ascii(address@) && all_ascii(target@) ==> r == contains_seq(
            ascii_lower(address@),
            ascii_lower(target@),
        ),
{
    if case_sensitive {
        contains_text(address, target)
    } else {
        let a = lowercase(address);
        let t = lowercase(target);
        contains_text(a.as_str(), t.as_str())
    }
}

/// The prefix policy on an address.
pub fn matches_prefix(address: &str, prefix: &str, case_sensitive: bool) -> (r: bool)
    ensures
        r == prefix_match(address@, prefix@, case_sensitive),
        !case_sensitive && all_ascii(address@) && all_ascii(prefix@) ==> r == (address@.len() >= 1
            && starts_with_seq(ascii_lower(address@.skip(1)), ascii_lower(prefix@))),
{
    let n = address.unicode_len();
    if n < 1 {
        return false;
    }
    let rest = address.substring_char(1, n);
    assert(rest@ =~= address@.skip(1));
    assert(all_ascii(address@) ==> all_ascii(rest@)) by {
        if all_ascii(address@) {
            assert forall|i: int| 0 <= i < rest@.len() implies (rest@[i] as u32) < 128 by {
                assert(rest@[i] == address@[i + 1]);
            }
        }
    }
    if case_sensitive {
        starts_with_text(rest, prefix)
    } else {
        let a = lowercase(rest);
        let p = lowercase(prefix);
        starts_with_text(a.as_str(), p.as_str())
    }
}

/// `a` and `b` differ at most in the case of ASCII letters.
pub open spec fn same_up_to_ascii_case(a: Seq<char>, b: Seq<char>) -> bool {
    a.len() == b.len() && forall|i: int|
        0 <= i < a.len() ==> ascii_lower_char(#[trigger] a[i]) == ascii_lower_char(b[i])
}

/// Case-insensitive substring matching on ASCII text does not change when
/// the letters of the target change case.
pub proof fn lemma_case_insensitive_target(address: Seq<char>, t1: Seq<char>, t2: Seq<char>)
    requires
        same_up_to_ascii_case(t1, t2),
    ensures
        contains_seq(ascii_lower(address), ascii_lower(t1)) == contains_seq(
            ascii_lower(address),
            ascii_lower(t2),
        ),
{
    assert(ascii_lower(t1) =~= ascii_lower(t2));
}

/// Text of the shape every P2PKH address has: a leading `'1'` and base58
/// symbols only.
pub open spec fn address_shaped(s: Seq<char>) -> bool {
    s.len() > 0 && s[0] == '1' && forall|i: int| 0 <= i < s.len() ==> is_symbol(#[trigger] s[i])
}

/// What a search found, and after how many attempts.
pub struct SearchResult {
    pub address: BitcoinAddress,
    pub attempts: u64,
    /// The candidates generated and turned down before the match, in order.
    pub rejected: Ghost<Seq<BitcoinAddress>>,
}

/// Why a search ended without a match.
#[derive(Debug, Clone, Copy, PartialEq, Eq, Structural)]
pub enum SearchStop {
    /// The cancellation signal was raised.
    Cancelled,
    /// The attempt counter reached its largest value.
    Exhausted,
}

/// Generates addresses until `matcher` accepts one. `progress` receives the
/// attempt count every `PROGRESS_INTERVAL` attempts, and `cancelled` is
/// polled once per attempt, after the candidate was turned down.
pub fn search<M, P, C>(matcher: &M, progress: &P, cancelled: &C) -> (r: Result<
    SearchResult,
    SearchStop,
>) where M: Fn(&String) -> bool, P: Fn(u64), C: Fn() -> bool
    requires
        forall|a: &String| matcher.requires((a,)),
        forall|n: u64| progress.requires((n,)),
        cancelled.requires(()),
    ensures
        match r {
            Ok(res) => {
                &&& res.attempts >= 1
                &&& res.address.is_consistent()
                &&& matcher.ensures((&res.address.address_string(),), true)
                &&& res.rejected@.len() + 1 == res.attempts
                &&& forall|i: int|
                    0 <= i < res.rejected@.len() ==> {
                        &&& (#[trigger] res.rejected@[i]).is_consistent()
                        &&& matcher.ensures((&res.rejected@[i].address_string(),), false)
                    }
            },
            Err(SearchStop::Cancelled) => cancelled.ensures((), true),
            Err(SearchStop::Exhausted) => true,
        },
        (forall|a: &String, b: bool|
            #[trigger] matcher.ensures((a,), b) && address_shaped(a@) ==> b) ==> (r matches Ok(res)
            && res.attempts == 1),
{
    let mut attempts: u64 = 0;
    let ghost mut rejected: Seq<BitcoinAddress> = Seq::empty();
    while attempts < u64::MAX
        invariant
            forall|a: &String| matcher.requires((a,)),
            forall|n: u64| progress.requires((n,)),
            cancelled.requires(()),
            rejected.len() == attempts,
            forall|i: int|
                0 <= i < rejected.len() ==> {
                    &&& (#[trigger] rejected[i]).is_consistent()
                    &&& matcher.ensures((&rejected[i].address_string(),), false)
                },
            (forall|a: &String, b: bool|
                #[trigger] matcher.ensures((a,), b) && address_shaped(a@) ==> b) ==> attempts == 0,
        decreases u64::MAX - attempts,
    {
        attempts += 1;
        let candidate = BitcoinAddress::generate();
        proof {
            lemma_address_shape(candidate.public_view());
            lemma_generated_address_verifies(candidate);
        }
        let text = candidate.address();
        let accepted = matcher(text);
        if accepted {
            return Ok(SearchResult { address: candidate, attempts, rejected: Ghost(rejected) });
        }
        proof {
            assert(address_shaped(text@));
            rejected = rejected.push(candidate);
        }
        if attempts % PROGRESS_INTERVAL == 0 {
            progress(attempts);
        }
        if cancelled() {
            return Err(SearchStop::Cancelled);
        }
    }
    Err(SearchStop::Exhausted)
}

proof fn lemma_shaped_is_ascii(s: Seq<char>)
    requires
        address_shaped(s),
    ensures
        all_ascii(s),
{
    assert forall|i: int| 0 <= i < s.len() implies (s[i] as u32) < 128 by {
        assert(is_symbol(s[i]));
    }
}

impl BitcoinAddress {
    /// Searches for an address that contains `target`. An empty target, or
    /// `"1"`, is in every address, so the first candidate is taken.
    pub fn generate_vanity<P: Fn(u64), C: Fn() -> bool>(
        target: &str,
        case_sensitive: bool,
        progress: &P,
        cancelled: &C,
    ) -> (r: Result<SearchResult, SearchStop>)
        requires
            forall|n: u64| progress.requires((n,)),
            cancelled.requires(()),
        ensures
            match r {
                Ok(res) => {
                    &&& res.attempts >= 1
                    &&& res.address.is_consistent()
                    &&& substring_match(res.address.address_view(), target@, case_sensitive)
                    &&& res.rejected@.len() + 1 == res.attempts
                    &&& forall|i: int|
                        0 <= i < res.rejected@.len() ==> {
                            &&& (#[trigger] res.rejected@[i]).is_consistent()
                            &&& !substring_match(
                                res.rejected@[i].address_view(),
                                target@,
                                case_sensitive,
                            )
                        }
                },
                Err(SearchStop::Cancelled) => cancelled.ensures((), true),
                Err(SearchStop::Exhausted) => true,
            },
            target@.len() == 0 || target@ == seq!['1'] ==> (r matches Ok(res) && res.attempts == 1),
    {
        let matcher = |a: &String| -> (b: bool)
            ensures
                b == substring_match(a@, target@, case_sensitive),
                !case_sensitive && all_ascii(a@) && all_ascii(target@) ==> b == contains_seq(
                    ascii_lower(a@),
                    ascii_lower(target@),
                ),
            { matches_substring(a.as_str(), target, case_sensitive) };
        proof {
            if target@.len() == 0 || target@ == seq!['1'] {
                assert forall|a: &String, b: bool|
                    #[trigger] matcher.ensures((a,), b) && address_shaped(a@) implies b by {
                    if case_sensitive {
                        assert(a@.subrange(0int, 0int + target@.len()) =~= target@);
                        assert(contains_seq(a@, target@));
                    } else {
                        lemma_shaped_is_ascii(a@);
                        let h = ascii_lower(a@);
                        let t = ascii_lower(target@);
                        assert(h.subrange(0int, 0int + t.len()) =~= t);
                        assert(contains_seq(h, t));
                    }
                }
            }
        }
        search(&matcher, progress, cancelled)
    }

    /// Searches for an address whose text after the leading `'1'` begins
    /// with `prefix`. An empty prefix fits every address, so the first
    /// candidate is taken.
    pub fn generate_prefix<P: Fn(u64), C: Fn() -> bool>(
        prefix: &str,
        case_sensitive: bool,
        progress: &P,
        cancelled: &C,
    ) -> (r: Result<SearchResult, SearchStop>)
        requires
            forall|n: u64| progress.requires((n,)),
            cancelled.requires(()),
        ensures
            match r {
                Ok(res) => {
                    &&& res.attempts >= 1
                    &&& res.address.is_consistent()
                    &&& prefix_match(res.address.address_view(), prefix@, case_sensitive)
                    &&& res.rejected@.len() + 1 == res.attempts
                    &&& forall|i: int|
                        0 <= i < res.rejected@.len() ==> {
                            &&& (#[trigger] res.rejected@[i]).is_consistent()
                            &&& !prefix_match(
                                res.rejected@[i].address_view(),
                                prefix@,
                                case_sensitive,
                            )
                        }
                },
                Err(SearchStop::Cancelled) => cancelled.ensures((), true),
                Err(SearchStop::Exhausted) => true,
            },
            prefix@.len() == 0 ==> (r matches Ok(res) && res.attempts == 1),
    {
        let matcher = |a: &String| -> (b: bool)
            ensures
                b == prefix_match(a@, prefix@, case_sensitive),
                !case_sensitive && all_ascii(a@) && all_ascii(prefix@) ==> b == (a@.len() >= 1
                    && starts_with_seq(ascii_lower(a@.skip(1)), ascii_lower(prefix@))),
            { matches_prefix(a.as_str(), prefix, case_sensitive) };
        proof {
            if prefix@.len() == 0 {
                assert forall|a: &String, b: bool|
                    #[trigger] matcher.ensures((a,), b) && address_shaped(a@) implies b by {
                    assert(a@.skip(1).subrange(0, 0) =~= prefix@);
                    if !case_sensitive {
                        lemma_shaped_is_ascii(a@);
                        assert(ascii_lower(a@.skip(1)).subrange(0, 0) =~= ascii_lower(prefix@));
                    }
                }
            }
        }
        search(&matcher, progress, cancelled)
    }
}

} // verus!
