//! Extraction of addresses from the text of the published feed.
use crate::address::{lemma_precedes_total, precedes, strictly_sorted, views};
use crate::error::UpdateError;
use crate::store::DatabaseProvider;
use itertools::Itertools;
use vstd::prelude::*;
use vstd::utf8::{decode_utf8, valid_utf8};

verus! {

broadcast use vstd::seq_lib::group_to_multiset_ensures;

/// A labelled address field, the label matched without regard to case:
/// "Digital Currency Address", a dash, a currency
/// code of three or four word characters, then the address itself, which is
/// the third group.
pub const ADDRESS_PATTERN: &'static str = r"(?i)(Digital[\s]{0,}Currency[\s]{0,}Address)[\s]{0,}-[\s]{0,}([\w]{3,4})[\s]{0,}([\w-]+)";

/// The error of `regex::Regex::new`, carried through as it is.
#[verifier::external_type_specification]
#[verifier::external_body]
pub struct ExRegexError(regex::Error);

/// What a regular expression yields on a text: `None` where the pattern does
/// not compile, else the third group of each successive match, the empty
/// text where that group took no part.
pub uninterp spec fn third_groups(pattern: Seq<char>, text: Seq<char>) -> Option<Seq<Seq<char>>>;

/// Relies on `regex::Regex::new` (compiles `pattern`, or fails) and on
/// `Regex::captures_iter` with `Captures::get(3)`: the third group of every
/// match, in order.
#[verifier::external_body]
fn capture_third_groups(pattern: &str, text: &str) -> (r: Result<Vec<String>, regex::Error>)
    ensures
        r is Ok <==> third_groups(pattern@, text@) is Some,
        r is Ok ==> views(r->Ok_0@) == third_groups(pattern@, text@)->Some_0,
{
    let re = regex::Regex::new(pattern)?;
    Ok(re.captures_iter(text).map(|c| c.get(3).map_or("", |m| m.as_str()).to_string()).collect())
}

/// Relies on `String::from_utf8`: the text that the bytes encode, if they
/// are valid UTF-8.
#[verifier::external_body]
fn decode_text(bytes: Vec<u8>) -> (r: Option<String>)
    ensures
        r is Some <==> valid_utf8(bytes@),
        r is Some ==> r->Some_0@ == decode_utf8(bytes@),
{
    String::from_utf8(bytes).ok()
}

/// Relies on `Itertools::unique`: each distinct item once, no other.
#[verifier::external_body]
fn unique_items(items: Vec<String>) -> (r: Vec<String>)
    ensures
        views(r@).no_duplicates(),
        views(r@).to_set() == views(items@).to_set(),
{
    items.into_iter().unique().collect()
}

/// Relies on `Itertools::sorted`: the same items, in ascending order of
/// `String`'s `Ord`, which compares the UTF-8 bytes lexicographically.
#[verifier::external_body]
fn sorted_items(items: Vec<String>) -> (r: Vec<String>)
    ensures
        views(r@).to_multiset() == views(items@).to_multiset(),
        forall|i: int, j: int|
            0 <= i < j < r@.len() ==> !precedes(#[trigger] r@[j]@, #[trigger] r@[i]@),
{
    items.into_iter().sorted().collect()
}

/// The non-empty texts among `s`.
pub open spec fn non_empty(s: Seq<Seq<char>>) -> Set<Seq<char>> {
    s.to_set().filter(|x: Seq<char>| x.len() > 0)
}

/// The addresses found by the pattern in the text: strictly ascending, each
/// non-empty capture once.
pub fn collect_addresses(captures: Vec<String>) -> (r: Vec<String>)
    ensures
        strictly_sorted(views(r@)),
        views(r@).to_set() == non_empty(views(captures@)),
{
    let mut kept: Vec<String> = Vec::new();
    let mut i: usize = 0;
    while i < captures.len()
        invariant
            i <= captures@.len(),
            views(kept@).to_set() == non_empty(views(captures@).subrange(0, i as int)),
        decreases captures@.len() - i,
    {
        let ghost before = views(kept@);
        let ghost seen = views(captures@).subrange(0, i as int);
        let ghost next = views(captures@).subrange(0, i + 1);
        assert(next =~= seen.push(captures@[i as int]@));
        if !captures[i].as_str().is_empty() {
            kept.push(captures[i].clone());
            let ghost c = captures@[i as int]@;
            assert(views(kept@) =~= before.push(c));
            assert forall|x: Seq<char>| views(kept@).to_set().contains(x) <==> non_empty(
                next,
            ).contains(x) by {
                vstd::seq_lib::lemma_seq_contains_after_push(before, c, x);
                vstd::seq_lib::lemma_seq_contains_after_push(seen, c, x);
                assert(c.len() > 0);
                assert(before.to_set().contains(x) == before.contains(x));
                assert(views(kept@).to_set().contains(x) == views(kept@).contains(x));
                assert(seen.to_set().contains(x) == seen.contains(x));
                assert(next.to_set().contains(x) == next.contains(x));
                assert(non_empty(seen).contains(x) == (seen.contains(x) && x.len() > 0));
                assert(non_empty(next).contains(x) == (next.contains(x) && x.len() > 0));
            }
            assert(views(kept@).to_set() =~= non_empty(next));
        } else {
            assert(before.to_set() =~= non_empty(next));
        }
        i = i + 1;
    }
    assert(views(captures@).subrange(0, i as int) =~= views(captures@));
    let unique = unique_items(kept);
    let sorted = sorted_items(unique);
    proof {
        let u = views(unique@);
        let d = views(sorted@);
        u.lemma_multiset_has_no_duplicates();
        assert forall|x: Seq<char>| d.to_multiset().contains(x) implies d.to_multiset().count(x)
            == 1 by {
            assert(u.to_multiset().count(x) == d.to_multiset().count(x));
        }
        d.lemma_multiset_has_no_duplicates_conv();
        assert forall|x: Seq<char>| d.to_set().contains(x) <==> u.to_set().contains(x) by {
            assert(d.contains(x) <==> d.to_multiset().count(x) > 0);
            assert(u.contains(x) <==> u.to_multiset().count(x) > 0);
        }
        assert(d.to_set() =~= u.to_set());
        assert forall|i: int, j: int| 0 <= i < j < d.len() implies precedes(
            #[trigger] d[i],
            #[trigger] d[j],
        ) by {
            assert(!precedes(sorted@[j]@, sorted@[i]@));
            lemma_precedes_total(d[i], d[j]);
        }
    }
    sorted
}

/// The addresses in a feed payload: the text must be valid UTF-8, and the
/// result holds each non-empty address that the pattern captures, once, in
/// ascending order.
pub fn try_parse(payload: Vec<u8>) -> (r: Result<Vec<String>, UpdateError>)
    ensures
        r matches Err(UpdateError::InvalidText) <==> !valid_utf8(payload@),
        r matches Err(UpdateError::InvalidPattern) <==> valid_utf8(payload@) && third_groups(
            ADDRESS_PATTERN@,
            decode_utf8(payload@),
        ) is None,
        r is Ok <==> valid_utf8(payload@) && third_groups(
            ADDRESS_PATTERN@,
            decode_utf8(payload@),
        ) is Some,
        r is Ok ==> strictly_sorted(views(r->Ok_0@)),
        r is Ok ==> views(r->Ok_0@).to_set() == non_empty(
            third_groups(ADDRESS_PATTERN@, decode_utf8(payload@))->Some_0,
        ),
{
    let text = match decode_text(payload) {
        Some(t) => t,
        None => return Err(UpdateError::InvalidText),
    };
    match capture_third_groups(ADDRESS_PATTERN, text.as_str()) {
        Ok(captures) => Ok(collect_addresses(captures)),
        Err(_) => Err(UpdateError::InvalidPattern),
    }
}

/// One refresh from a fetched payload: parse it, then replace the dataset.
/// A payload that does not parse leaves the dataset as it was.
pub fn try_update<D: DatabaseProvider>(db: &mut D, payload: Vec<u8>) -> (r: Result<(), UpdateError>)
    ensures
        !valid_utf8(payload@) ==> r == Err::<(), UpdateError>(UpdateError::InvalidText),
        valid_utf8(payload@) && third_groups(ADDRESS_PATTERN@, decode_utf8(payload@)) is None
            ==> r == Err::<(), UpdateError>(UpdateError::InvalidPattern),
        old(db).infallible() && valid_utf8(payload@) && third_groups(
            ADDRESS_PATTERN@,
            decode_utf8(payload@),
        ) is Some ==> r is Ok,
        r is Ok ==> valid_utf8(payload@) && third_groups(
            ADDRESS_PATTERN@,
            decode_utf8(payload@),
        ) is Some,
        r is Ok ==> strictly_sorted(final(db).dataset()),
        r is Ok ==> final(db).dataset().to_set() == non_empty(
            third_groups(ADDRESS_PATTERN@, decode_utf8(payload@))->Some_0,
        ),
        r is Err ==> final(db).dataset() == old(db).dataset(),
{
    match try_parse(payload) {
        Ok(records) => db.save_records(records),
        Err(e) => Err(e),
    }
}

} // verus!
