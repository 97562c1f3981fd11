//! Listings: sequences of identity and name, and the order that a search
//! gives them.

use vstd::prelude::*;
use crate::person_data::PersonId;
use crate::text::{
    text_lt, text_before, lemma_text_lt_irreflexive, lemma_text_lt_total,
    lemma_text_lt_transitive,
};

verus! {

/// A listing as plain values: the identity and the name of each entry.
pub open spec fn listing_view(listing: Seq<(PersonId, String)>) -> Seq<(nat, Seq<char>)> {
    Seq::new(listing.len(), |i: int| (listing[i].0@, listing[i].1@))
}

/// The order of a search result: by name, and among equal names by identity.
pub open spec fn entry_lt(a: (nat, Seq<char>), b: (nat, Seq<char>)) -> bool {
    text_lt(a.1, b.1) || (a.1 == b.1 && a.0 < b.0)
}

/// Each entry comes before all that follow it: the listing ascends by name,
/// among equal names by identity, and no entry stands in it twice.
pub open spec fn sorted_by_name(listing: Seq<(nat, Seq<char>)>) -> bool {
    forall|i: int, j: int| 0 <= i < j < listing.len() ==> entry_lt(listing[i], listing[j])
}

/// No entry comes before itself.
pub proof fn lemma_entry_lt_irreflexive(a: (nat, Seq<char>))
    ensures
        !entry_lt(a, a),
{
    lemma_text_lt_irreflexive(a.1);
}

/// The order of entries is transitive.
pub proof fn lemma_entry_lt_transitive(a: (nat, Seq<char>), b: (nat, Seq<char>), c: (nat, Seq<char>))
    requires
        entry_lt(a, b),
        entry_lt(b, c),
    ensures
        entry_lt(a, c),
{
    if text_lt(a.1, b.1) && text_lt(b.1, c.1) {
        lemma_text_lt_transitive(a.1, b.1, c.1);
    }
}

/// Of two different entries one comes before the other.
pub proof fn lemma_entry_lt_total(a: (nat, Seq<char>), b: (nat, Seq<char>))
    ensures
        entry_lt(a, b) || a == b || entry_lt(b, a),
{
    lemma_text_lt_total(a.1, b.1);
}

/// Two listings that are both in the order of a search result and hold the
/// same entries are the same listing.
pub proof fn lemma_sorted_listings_equal(
    first: Seq<(nat, Seq<char>)>,
    second: Seq<(nat, Seq<char>)>,
)
    requires
        sorted_by_name(first),
        sorted_by_name(second),
        forall|entry: (nat, Seq<char>)| first.contains(entry) <==> second.contains(entry),
    ensures
        first == second,
    decreases first.len(),
{
    if first.len() == 0 {
        if second.len() > 0 {
            assert(second.contains(second[0]));
        }
        assert(first =~= second);
    } else {
        assert(first.contains(first[0]));
        let j = choose|j: int| 0 <= j < second.len() && second[j] == first[0];
        assert(second.contains(second[0]));
        let i = choose|i: int| 0 <= i < first.len() && first[i] == second[0];
        if i > 0 && j > 0 {
            lemma_entry_lt_transitive(first[0], first[i], second[j]);
            lemma_entry_lt_irreflexive(first[0]);
        }
        assert(first[0] == second[0]);
        let rest_first = first.drop_first();
        let rest_second = second.drop_first();
        assert forall|entry: (nat, Seq<char>)| rest_first.contains(entry) implies rest_second.contains(
            entry,
        ) by {
            let k = choose|k: int| 0 <= k < rest_first.len() && rest_first[k] == entry;
            assert(first[k + 1] == entry);
            assert(first.contains(entry));
            let m = choose|m: int| 0 <= m < second.len() && second[m] == entry;
            if m == 0 {
                lemma_entry_lt_irreflexive(entry);
            }
            assert(rest_second[m - 1] == entry);
        }
        assert forall|entry: (nat, Seq<char>)| rest_second.contains(entry) implies rest_first.contains(
            entry,
        ) by {
            let k = choose|k: int| 0 <= k < rest_second.len() && rest_second[k] == entry;
            assert(second[k + 1] == entry);
            assert(second.contains(entry));
            let m = choose|m: int| 0 <= m < first.len() && first[m] == entry;
            if m == 0 {
                lemma_entry_lt_irreflexive(entry);
            }
            assert(rest_first[m - 1] == entry);
        }
        assert(sorted_by_name(rest_first)) by {
            assert forall|a: int, b: int| 0 <= a < b < rest_first.len() implies entry_lt(
                rest_first[a],
                rest_first[b],
            ) by {
                assert(entry_lt(first[a + 1], first[b + 1]));
            }
        }
        assert(sorted_by_name(rest_second)) by {
            assert forall|a: int, b: int| 0 <= a < b < rest_second.len() implies entry_lt(
                rest_second[a],
                rest_second[b],
            ) by {
                assert(entry_lt(second[a + 1], second[b + 1]));
            }
        }
        lemma_sorted_listings_equal(rest_first, rest_second);
        assert(first =~= seq![first[0]] + rest_first);
        assert(second =~= seq![second[0]] + rest_second);
    }
}

/// Whether the entry `a_id`, `a_name` comes before the entry `b_id`, `b_name`.
pub fn entry_before(a_id: PersonId, a_name: &str, b_id: PersonId, b_name: &str) -> (before: bool)
    ensures
        before == entry_lt((a_id@, a_name@), (b_id@, b_name@)),
{
    if text_before(a_name, b_name) {
        true
    } else if text_before(b_name, a_name) {
        proof {
            if a_name@ == b_name@ {
                lemma_text_lt_irreflexive(a_name@);
            }
        }
        false
    } else {
        proof {
            lemma_text_lt_total(a_name@, b_name@);
        }
        a_id.raw() < b_id.raw()
    }
}

/// An entry put at the place where all before it come before it, and all
/// after it come after it, leaves the listing in order, and adds this entry
/// and no other.
pub proof fn lemma_insert_in_order(listing: Seq<(nat, Seq<char>)>, at: int, entry: (nat, Seq<char>))
    requires
        sorted_by_name(listing),
        0 <= at <= listing.len(),
        forall|k: int| 0 <= k < at ==> entry_lt(listing[k], entry),
        forall|k: int| at <= k < listing.len() ==> entry_lt(entry, listing[k]),
    ensures
        sorted_by_name(listing.insert(at, entry)),
        forall|other: (nat, Seq<char>)|
            listing.insert(at, entry).contains(other) <==> (other == entry || listing.contains(
                other,
            )),
{
    let longer = listing.insert(at, entry);
    assert forall|i: int, j: int| 0 <= i < j < longer.len() implies entry_lt(
        longer[i],
        longer[j],
    ) by {
        if j < at {
            assert(longer[i] == listing[i] && longer[j] == listing[j]);
        } else if j == at {
            assert(longer[i] == listing[i]);
        } else if i < at {
            assert(longer[i] == listing[i] && longer[j] == listing[j - 1]);
            if i == j - 1 {
                lemma_entry_lt_transitive(listing[i], entry, listing[j - 1]);
            }
        } else if i == at {
            assert(longer[j] == listing[j - 1]);
        } else {
            assert(longer[i] == listing[i - 1] && longer[j] == listing[j - 1]);
        }
    }
    assert forall|other: (nat, Seq<char>)| longer.contains(other) <==> (other == entry
        || listing.contains(other)) by {
        if longer.contains(other) {
            let k = choose|k: int| 0 <= k < longer.len() && longer[k] == other;
            if k < at {
                assert(listing[k] == other);
            } else if k > at {
                assert(listing[k - 1] == other);
            }
        }
        if other == entry {
            assert(longer[at] == other);
        }
        if listing.contains(other) {
            let k = choose|k: int| 0 <= k < listing.len() && listing[k] == other;
            if k < at {
                assert(longer[k] == other);
            } else {
                assert(longer[k + 1] == other);
            }
        }
    }
}

/// The place of a new entry in a listing that is in order, counted from the
/// front: the number of entries that come before it.
fn place_of(listing: &Vec<(PersonId, String)>, id: PersonId, name: &str) -> (at: usize)
    requires
        sorted_by_name(listing_view(listing@)),
        !listing_view(listing@).contains((id@, name@)),
    ensures
        at <= listing.len(),
        forall|k: int| 0 <= k < at ==> entry_lt(listing_view(listing@)[k], (id@, name@)),
        forall|k: int|
            at <= k < listing.len() ==> entry_lt((id@, name@), listing_view(listing@)[k]),
{
    let ghost entries = listing_view(listing@);
    let mut at: usize = 0;
    while at < listing.len()
        invariant
            at <= listing.len(),
            entries == listing_view(listing@),
            sorted_by_name(entries),
            !entries.contains((id@, name@)),
            forall|k: int| 0 <= k < at ==> entry_lt(entries[k], (id@, name@)),
        decreases listing.len() - at,
    {
        if entry_before(id, name, listing[at].0, listing[at].1.as_str()) {
            proof {
                assert forall|k: int| at <= k < listing.len() implies entry_lt(
                    (id@, name@),
                    entries[k],
                ) by {
                    if k > at {
                        lemma_entry_lt_transitive((id@, name@), entries[at as int], entries[k]);
                    }
                }
            }
            return at;
        }
        proof {
            assert(entries[at as int] != (id@, name@));
            lemma_entry_lt_total(entries[at as int], (id@, name@));
        }
        at += 1;
    }
    at
}

/// Puts a new entry into a listing that is in order, at its place.
pub fn insert_in_order(listing: &mut Vec<(PersonId, String)>, id: PersonId, name: String)
    requires
        sorted_by_name(listing_view(old(listing)@)),
        !listing_view(old(listing)@).contains((id@, name@)),
    ensures
        sorted_by_name(listing_view(final(listing)@)),
        final(listing).len() == old(listing).len() + 1,
        forall|entry: (nat, Seq<char>)|
            listing_view(final(listing)@).contains(entry) <==> (entry == (id@, name@)
                || listing_view(old(listing)@).contains(entry)),
{
    let at = place_of(listing, id, name.as_str());
    proof {
        lemma_insert_in_order(listing_view(listing@), at as int, (id@, name@));
    }
    let ghost before = listing@;
    listing.insert(at, (id, name));
    assert(listing_view(listing@) =~= listing_view(before).insert(at as int, (id@, name@)));
}

} // verus!
