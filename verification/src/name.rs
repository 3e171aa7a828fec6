//! Collision-resolving namer.
//!
//! Given the current listing of the trash directory and an incoming
//! basename, the namer returns the basename unchanged when it is free,
//! and otherwise the basename followed by the smallest positive decimal
//! suffix that is free. The probe is pure: the caller supplies the
//! listing, and the actual reservation happens with the move itself.

use vstd::prelude::*;
use crate::bytes::{copy_bytes, contains_name, listing_contains, views_of};

verus! {

/// Decimal digit bytes of `n`, most significant digit first (`"0"` for 0).
pub open spec fn dec_digits(n: nat) -> Seq<u8>
    decreases n,
{
    if n < 10 {
        seq![(48 + n) as u8]
    } else {
        dec_digits(n / 10).push((48 + n % 10) as u8)
    }
}

/// The number that a digit sequence denotes, most significant digit first.
pub open spec fn dec_value(s: Seq<u8>) -> int
    decreases s.len(),
{
    if s.len() == 0 {
        0
    } else {
        dec_value(s.drop_last()) * 10 + s.last() - 48
    }
}

/// Reading the digits of `n` back yields `n`.
pub proof fn lemma_dec_value_of_digits(n: nat)
    ensures
        dec_value(dec_digits(n)) == n,
    decreases n,
{
    if n < 10 {
        let d = dec_digits(n);
        assert(d.last() == (48 + n) as u8);
        assert(48 + n < 256);
        assert(d.drop_last() =~= Seq::<u8>::empty());
        assert(dec_value(d) == dec_value(Seq::<u8>::empty()) * 10 + (48 + n) as u8 - 48);
    } else {
        lemma_dec_value_of_digits(n / 10);
        let d = dec_digits(n);
        assert(d.last() == (48 + n % 10) as u8);
        assert(48 + n % 10 < 256);
        assert(d.drop_last() =~= dec_digits(n / 10));
        assert(dec_value(d) == dec_value(dec_digits(n / 10)) * 10 + (48 + n % 10) as u8 - 48);
        assert((n / 10) * 10 + n % 10 == n);
    }
}

/// Distinct numbers have distinct digit sequences.
pub proof fn lemma_dec_digits_injective(a: nat, b: nat)
    ensures
        dec_digits(a) == dec_digits(b) ==> a == b,
{
    if dec_digits(a) == dec_digits(b) {
        lemma_dec_value_of_digits(a);
        lemma_dec_value_of_digits(b);
    }
}

/// Every byte of a decimal suffix is an ASCII digit.
pub proof fn lemma_dec_digits_range(n: nat)
    ensures
        dec_digits(n).len() > 0,
        forall|i: int| 0 <= i < dec_digits(n).len() ==> 48 <= #[trigger] dec_digits(n)[i] <= 57,
    decreases n,
{
    if n >= 10 {
        lemma_dec_digits_range(n / 10);
        assert forall|i: int| 0 <= i < dec_digits(n).len() implies 48 <= #[trigger] dec_digits(
            n,
        )[i] <= 57 by {
            if i < dec_digits(n / 10).len() {
                assert(dec_digits(n)[i] == dec_digits(n / 10)[i]);
            }
        }
    }
}

/// Concatenations that share their first operand share their second.
pub proof fn lemma_concat_same_prefix(p: Seq<u8>, a: Seq<u8>, b: Seq<u8>)
    requires
        p + a == p + b,
    ensures
        a == b,
{
    broadcast use vstd::seq::axiom_seq_add_len;

    assert((p + a).len() == p.len() + a.len());
    assert((p + b).len() == p.len() + b.len());
    assert forall|k: int| 0 <= k < a.len() implies a[k] == b[k] by {
        assert((p + a)[p.len() + k] == a[k]);
        assert((p + b)[p.len() + k] == b[k]);
    }
    assert(a =~= b);
}

/// The decimal digit bytes of `n`, as executable bytes.
pub fn u64_to_dec(n: u64) -> (r: Vec<u8>)
    ensures
        r@ == dec_digits(n as nat),
    decreases n,
{
    if n < 10 {
        let mut r: Vec<u8> = Vec::new();
        r.push(48 + (n as u8));
        proof {
            assert(r@ =~= dec_digits(n as nat));
        }
        r
    } else {
        let mut r = u64_to_dec(n / 10);
        r.push(48 + ((n % 10) as u8));
        proof {
            assert(r@ =~= dec_digits(n as nat));
        }
        r
    }
}

/// `base` followed by the decimal digits of `i`.
pub fn numbered_name(base: &Vec<u8>, i: u64) -> (r: Vec<u8>)
    ensures
        r@ == base@ + dec_digits(i as nat),
{
    let mut r = copy_bytes(base);
    let mut d = u64_to_dec(i);
    r.append(&mut d);
    r
}

/// The suffix index that a resolved name was built from: `r` is `base`
/// followed by the digits of `i`, and every smaller positive suffix collides.
pub open spec fn suffix_choice(listing: Seq<Seq<u8>>, base: Seq<u8>, r: Seq<u8>, i: nat) -> bool {
    &&& 1 <= i
    &&& r == base + dec_digits(i)
    &&& forall|j: nat| 1 <= j < i ==> listing_contains(listing, base + #[trigger] dec_digits(j))
}

/// What `resolve_name` returns: a name free in the listing, equal to the
/// basename when that is free, and otherwise the basename with the smallest
/// positive decimal suffix that is free.
pub open spec fn resolves_to(listing: Seq<Seq<u8>>, base: Seq<u8>, r: Seq<u8>) -> bool {
    &&& !listing_contains(listing, r)
    &&& (!listing_contains(listing, base) ==> r == base)
    &&& (listing_contains(listing, base) ==> exists|i: nat| suffix_choice(listing, base, r, i))
}

/// If the basename and every positive suffix up to `i` collide, the listing
/// holds at least `i` distinct names, so `i` is at most the listing's length.
proof fn lemma_collision_bound(listing: Seq<Seq<u8>>, base: Seq<u8>, i: nat)
    requires
        forall|j: nat| 1 <= j <= i ==> listing_contains(listing, base + #[trigger] dec_digits(j)),
    ensures
        i <= listing.len(),
{
    broadcast use vstd::seq_lib::seq_to_set_is_finite;

    let cands = Seq::new(i, |k: int| base + dec_digits((k + 1) as nat));
    assert forall|k1: int, k2: int|
        0 <= k1 < cands.len() && 0 <= k2 < cands.len() && k1 != k2 implies cands[k1]
        != cands[k2] by {
        if cands[k1] == cands[k2] {
            lemma_concat_same_prefix(
                base,
                dec_digits((k1 + 1) as nat),
                dec_digits((k2 + 1) as nat),
            );
            lemma_dec_digits_injective((k1 + 1) as nat, (k2 + 1) as nat);
        }
    }
    assert(cands.no_duplicates());
    cands.unique_seq_to_set();
    assert forall|x: Seq<u8>| cands.to_set().contains(x) implies listing.to_set().contains(x) by {
        let k = choose|k: int| 0 <= k < cands.len() && cands[k] == x;
        assert(listing_contains(listing, base + dec_digits((k + 1) as nat)));
        let idx = choose|idx: int| 0 <= idx < listing.len() && listing[idx] == x;
        assert(listing.contains(listing[idx]));
    }
    listing.lemma_cardinality_of_set();
    vstd::set_lib::lemma_len_subset(cands.to_set(), listing.to_set());
}

/// Pick a destination name for `base` inside a trash directory whose
/// current entries are `listing`: `base` itself when free, otherwise
/// `base` with the smallest positive decimal suffix that is free.
pub fn resolve_name(listing: &Vec<Vec<u8>>, base: &Vec<u8>) -> (r: Vec<u8>)
    requires
        base@.len() > 0,
        listing@.len() < usize::MAX,
    ensures
        resolves_to(views_of(listing@), base@, r@),
{
    let ghost views = views_of(listing@);
    if !contains_name(listing, base) {
        return copy_bytes(base);
    }
    let mut i: usize = 1;
    loop
        invariant
            1 <= i <= listing@.len() + 1,
            listing@.len() < usize::MAX,
            views == views_of(listing@),
            listing_contains(views, base@),
            forall|j: nat| 1 <= j < i ==> listing_contains(views, base@ + #[trigger] dec_digits(j)),
        decreases listing@.len() + 1 - i,
    {
        let cand = numbered_name(base, i as u64);
        if !contains_name(listing, &cand) {
            proof {
                assert(suffix_choice(views, base@, cand@, i as nat));
            }
            return cand;
        }
        proof {
            assert(views.len() == listing@.len());
            assert forall|j: nat| 1 <= j <= i implies listing_contains(
                views,
                base@ + #[trigger] dec_digits(j),
            ) by {
                if j == i {
                    assert(listing_contains(views, cand@));
                }
            }
            lemma_collision_bound(views, base@, i as nat);
        }
        i += 1;
    }
}

/// Law: a basename that does not collide in the trash listing is returned
/// unchanged by name resolution.
pub proof fn lemma_resolve_noncolliding(listing: Seq<Seq<u8>>, base: Seq<u8>, r: Seq<u8>)
    requires
        !listing_contains(listing, base),
        resolves_to(listing, base, r),
    ensures
        r == base,
{
}

/// Law: when the basename and its first `k` numbered variants are all
/// present and variant `k + 1` is free, name resolution yields the basename
/// with suffix `k + 1`.
pub proof fn lemma_resolve_next_suffix(listing: Seq<Seq<u8>>, base: Seq<u8>, r: Seq<u8>, k: nat)
    requires
        listing_contains(listing, base),
        forall|j: nat| 1 <= j <= k ==> listing_contains(listing, base + #[trigger] dec_digits(j)),
        !listing_contains(listing, base + dec_digits((k + 1) as nat)),
        resolves_to(listing, base, r),
    ensures
        r == base + dec_digits((k + 1) as nat),
{
    let i = choose|i: nat| suffix_choice(listing, base, r, i);
    if i <= k {
        assert(listing_contains(listing, base + dec_digits(i)));
    }
    if i > k + 1 {
        assert(listing_contains(listing, base + dec_digits((k + 1) as nat)));
    }
    assert(i == k + 1);
}

} // verus!
