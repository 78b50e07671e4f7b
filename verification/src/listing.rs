//! Ordering of archive listings: name-size pairs as `archive_entries`
//! produces them, sorted as the caller asks.

use vstd::prelude::*;

use crate::error::FilePosition;

verus! {

broadcast use vstd::seq_lib::group_to_multiset_ensures;

/// Defines the ordering of an archive's listed entries.
#[derive(Clone, Copy, Debug)]
pub enum ListingSort {
    Unsorted,
    Name,
    Size,
}

impl Default for ListingSort {
    fn default() -> (s: Self)
        ensures
            s is Unsorted,
    {
        ListingSort::Unsorted
    }
}

/// Byte-wise lexicographic order on names: the order of the name sort.
pub open spec fn lex_leq(a: Seq<u8>, b: Seq<u8>) -> bool
    decreases a.len(),
{
    if a.len() == 0 {
        true
    } else if b.len() == 0 {
        false
    } else if a[0] < b[0] {
        true
    } else if a[0] > b[0] {
        false
    } else {
        lex_leq(a.drop_first(), b.drop_first())
    }
}

proof fn lemma_lex_total(a: Seq<u8>, b: Seq<u8>)
    ensures
        lex_leq(a, b) || lex_leq(b, a),
    decreases a.len(),
{
    if a.len() > 0 && b.len() > 0 && a[0] == b[0] {
        lemma_lex_total(a.drop_first(), b.drop_first());
    }
}

proof fn lemma_lex_trans(a: Seq<u8>, b: Seq<u8>, c: Seq<u8>)
    requires
        lex_leq(a, b),
        lex_leq(b, c),
    ensures
        lex_leq(a, c),
    decreases a.len(),
{
    if a.len() > 0 && b.len() > 0 && c.len() > 0 && a[0] == b[0] && b[0] == c[0] {
        lemma_lex_trans(a.drop_first(), b.drop_first(), c.drop_first());
    }
}

/// Compares two names in the byte-wise lexicographic order.
fn lex_leq_bytes(a: &Vec<u8>, b: &Vec<u8>) -> (r: bool)
    ensures
        r == lex_leq(a@, b@),
{
    let mut i: usize = 0;
    proof {
        assert(a@.skip(0) =~= a@);
        assert(b@.skip(0) =~= b@);
    }
    loop
        invariant
            i <= a@.len(),
            i <= b@.len(),
            lex_leq(a@, b@) == lex_leq(a@.skip(i as int), b@.skip(i as int)),
            lex_leq(b@, a@) == lex_leq(b@.skip(i as int), a@.skip(i as int)),
        decreases a@.len() - i,
    {
        proof {
            assert(a@.skip(i as int).len() == 0 ==> i == a@.len());
        }
        if i == a.len() {
            return true;
        }
        if i == b.len() {
            return false;
        }
        let x = a[i];
        let y = b[i];
        if x < y {
            return true;
        }
        if x > y {
            return false;
        }
        proof {
            assert(a@.skip(i as int).drop_first() =~= a@.skip(i + 1));
            assert(b@.skip(i as int).drop_first() =~= b@.skip(i + 1));
        }
        i = i + 1;
    }
}

/// The listing is ordered by name.
pub open spec fn sorted_by_name(s: Seq<(Vec<u8>, FilePosition)>) -> bool {
    forall|i: int, j: int|
        0 <= i < j < s.len() ==> lex_leq((#[trigger] s[i]).0@, (#[trigger] s[j]).0@)
}

/// The listing is ordered by size, largest first.
pub open spec fn sorted_by_size(s: Seq<(Vec<u8>, FilePosition)>) -> bool {
    forall|i: int, j: int| 0 <= i < j < s.len() ==> (#[trigger] s[i]).1 >= (#[trigger] s[j]).1
}

fn sort_by_name(names: &mut Vec<(Vec<u8>, FilePosition)>)
    ensures
        final(names)@.to_multiset() == old(names)@.to_multiset(),
        final(names)@.len() == old(names)@.len(),
        sorted_by_name(final(names)@),
{
    let mut i: usize = 1;
    while i < names.len()
        invariant
            1 <= i,
            names@.to_multiset() == old(names)@.to_multiset(),
            names@.len() == old(names)@.len(),
            forall|a: int, b: int|
                0 <= a < b < i && b < names@.len() ==> lex_leq(
                    (#[trigger] names@[a]).0@,
                    (#[trigger] names@[b]).0@,
                ),
        decreases names@.len() - i,
    {
        let ghost before = names@;
        let item = names.remove(i);
        let ghost mid = names@;
        let mut j: usize = i;
        while j > 0 && !lex_leq_bytes(&names[j - 1].0, &item.0)
            invariant
                j <= i,
                i < before.len(),
                names@ == mid,
                mid.len() == before.len() - 1,
                mid == before.remove(i as int),
                forall|a: int, b: int|
                    0 <= a < b < i ==> lex_leq((#[trigger] mid[a]).0@, (#[trigger] mid[b]).0@),
                forall|k: int| j <= k < i ==> lex_leq(item.0@, (#[trigger] mid[k]).0@),
            decreases j,
        {
            proof {
                lemma_lex_total(item.0@, names@[j - 1].0@);
            }
            j = j - 1;
        }
        names.insert(j, item);
        proof {
            assert(names@ == mid.insert(j as int, item));
            assert(names@.to_multiset() =~= before.to_multiset());
            assert forall|a: int, b: int|
                0 <= a < b < i + 1 && b < names@.len() implies lex_leq(
                (#[trigger] names@[a]).0@,
                (#[trigger] names@[b]).0@,
            ) by {
                if b < j {
                } else if a < j && b == j {
                    if a < j - 1 {
                        lemma_lex_trans(mid[a].0@, mid[j - 1].0@, item.0@);
                    }
                } else if a == j && b > j {
                } else if a < j && b > j {
                } else {
                }
            }
        }
        i = i + 1;
    }
    proof {
        if names@.len() <= 1 {
            assert(sorted_by_name(names@));
        }
    }
}

fn sort_by_size(names: &mut Vec<(Vec<u8>, FilePosition)>)
    ensures
        final(names)@.to_multiset() == old(names)@.to_multiset(),
        final(names)@.len() == old(names)@.len(),
        sorted_by_size(final(names)@),
{
    let mut i: usize = 1;
    while i < names.len()
        invariant
            1 <= i,
            names@.to_multiset() == old(names)@.to_multiset(),
            names@.len() == old(names)@.len(),
            forall|a: int, b: int|
                0 <= a < b < i && b < names@.len() ==> (#[trigger] names@[a]).1
                    >= (#[trigger] names@[b]).1,
        decreases names@.len() - i,
    {
        let ghost before = names@;
        let item = names.remove(i);
        let ghost mid = names@;
        let mut j: usize = i;
        while j > 0 && names[j - 1].1 < item.1
            invariant
                j <= i,
                i < before.len(),
                names@ == mid,
                mid.len() == before.len() - 1,
                mid == before.remove(i as int),
                forall|a: int, b: int|
                    0 <= a < b < i ==> (#[trigger] mid[a]).1 >= (#[trigger] mid[b]).1,
                forall|k: int| j <= k < i ==> item.1 >= (#[trigger] mid[k]).1,
            decreases j,
        {
            j = j - 1;
        }
        names.insert(j, item);
        proof {
            assert(names@ == mid.insert(j as int, item));
            assert(names@.to_multiset() =~= before.to_multiset());
            assert forall|a: int, b: int|
                0 <= a < b < i + 1 && b < names@.len() implies (#[trigger] names@[a]).1
                >= (#[trigger] names@[b]).1 by {}
        }
        i = i + 1;
    }
}

/// Applies the chosen ordering to a listing.  The pairs are permuted and
/// nothing else: entries with equal names, or equal sizes, may come out in
/// any order.
pub fn sort(names: &mut Vec<(Vec<u8>, FilePosition)>, sorting: ListingSort)
    ensures
        final(names)@.to_multiset() == old(names)@.to_multiset(),
        final(names)@.len() == old(names)@.len(),
        sorting is Name ==> sorted_by_name(final(names)@),
        sorting is Size ==> sorted_by_size(final(names)@),
        sorting is Unsorted ==> final(names)@ == old(names)@,
{
    match sorting {
        ListingSort::Name => sort_by_name(names),
        ListingSort::Size => sort_by_size(names),
        ListingSort::Unsorted => {},
    }
}

} // verus!
