//! The sovereignty roster: the minimal prefix of agents, ordered by
//! integer reputation mass (heaviest first, ties by key bytes ascending),
//! whose cumulative mass reaches ⌈φ⁻¹ of the total⌉. Keys are raw bytes.
use vstd::prelude::*;
use vstd::relations::{sorted_by, total_ordering};
use crate::curve::mass_seal_threshold;

verus! {

broadcast use vstd::seq_lib::group_to_multiset_ensures;

/// Lexicographic order on byte strings (the order of `Vec<u8>`).
pub open spec fn lex_le(a: Seq<u8>, b: Seq<u8>) -> bool
    decreases a.len(),
{
    if a.len() == 0 {
        true
    } else if b.len() == 0 {
        false
    } else if a[0] != b[0] {
        a[0] < b[0]
    } else {
        lex_le(a.drop_first(), b.drop_first())
    }
}

/// A seat as a plain value: key bytes and integer mass.
pub open spec fn seat_view(p: (Vec<u8>, u64)) -> (Seq<u8>, u64) {
    (p.0@, p.1)
}

pub open spec fn seats_view(s: Seq<(Vec<u8>, u64)>) -> Seq<(Seq<u8>, u64)> {
    s.map_values(|p: (Vec<u8>, u64)| seat_view(p))
}

/// Roster order: heavier mass first, equal masses by key ascending.
pub open spec fn seat_leq(x: (Seq<u8>, u64), y: (Seq<u8>, u64)) -> bool {
    x.1 > y.1 || (x.1 == y.1 && lex_le(x.0, y.0))
}

pub open spec fn seat_order() -> spec_fn((Seq<u8>, u64), (Seq<u8>, u64)) -> bool {
    |x: (Seq<u8>, u64), y: (Seq<u8>, u64)| seat_leq(x, y)
}

/// Σ mass.
pub open spec fn mass_sum(s: Seq<(Seq<u8>, u64)>) -> nat
    decreases s.len(),
{
    if s.len() == 0 {
        0
    } else {
        mass_sum(s.drop_last()) + s.last().1 as nat
    }
}

/// Σ mass over the first k seats.
pub open spec fn prefix_mass(s: Seq<(Seq<u8>, u64)>, k: int) -> nat {
    mass_sum(s.take(k))
}

/// Lexicographic order is reflexive.
pub proof fn lemma_lex_le_reflexive(a: Seq<u8>)
    ensures
        lex_le(a, a),
    decreases a.len(),
{
    if a.len() > 0 {
        lemma_lex_le_reflexive(a.drop_first());
    }
}

/// Lexicographic order is antisymmetric.
pub proof fn lemma_lex_le_antisymmetric(a: Seq<u8>, b: Seq<u8>)
    requires
        lex_le(a, b),
        lex_le(b, a),
    ensures
        a == b,
    decreases a.len(),
{
    if a.len() > 0 {
        lemma_lex_le_antisymmetric(a.drop_first(), b.drop_first());
        assert(a =~= seq![a[0]] + a.drop_first());
        assert(b =~= seq![b[0]] + b.drop_first());
    } else {
        assert(b.len() == 0);
        assert(a =~= b);
    }
}

/// Lexicographic order is transitive.
pub proof fn lemma_lex_le_transitive(a: Seq<u8>, b: Seq<u8>, c: Seq<u8>)
    requires
        lex_le(a, b),
        lex_le(b, c),
    ensures
        lex_le(a, c),
    decreases a.len(),
{
    if a.len() > 0 && b.len() > 0 && c.len() > 0 && a[0] == b[0] && b[0] == c[0] {
        lemma_lex_le_transitive(a.drop_first(), b.drop_first(), c.drop_first());
    }
}

/// Lexicographic order is total.
pub proof fn lemma_lex_le_total(a: Seq<u8>, b: Seq<u8>)
    ensures
        lex_le(a, b) || lex_le(b, a),
    decreases a.len(),
{
    if a.len() > 0 && b.len() > 0 && a[0] == b[0] {
        lemma_lex_le_total(a.drop_first(), b.drop_first());
    }
}

/// The roster order is a total order.
pub proof fn lemma_seat_order_total()
    ensures
        total_ordering(seat_order()),
{
    assert forall|x: (Seq<u8>, u64)| #[trigger] seat_order()(x, x) by {
        lemma_lex_le_reflexive(x.0);
    }
    assert forall|x: (Seq<u8>, u64), y: (Seq<u8>, u64)|
        #[trigger] seat_order()(x, y) && #[trigger] seat_order()(y, x) implies x == y by {
        lemma_lex_le_antisymmetric(x.0, y.0);
    }
    assert forall|x: (Seq<u8>, u64), y: (Seq<u8>, u64), z: (Seq<u8>, u64)|
        #[trigger] seat_order()(x, y) && #[trigger] seat_order()(y, z) implies seat_order()(x, z) by {
        if x.1 == y.1 && y.1 == z.1 {
            lemma_lex_le_transitive(x.0, y.0, z.0);
        }
    }
    assert forall|x: (Seq<u8>, u64), y: (Seq<u8>, u64)|
        #[trigger] seat_order()(x, y) || #[trigger] seat_order()(y, x) by {
        lemma_lex_le_total(x.0, y.0);
    }
}

/// Lexicographic `a <= b` on key bytes.
pub fn key_le(a: &Vec<u8>, b: &Vec<u8>) -> (r: bool)
    ensures
        r == lex_le(a@, b@),
{
    let mut i: usize = 0;
    proof {
        assert(a@.skip(0) =~= a@);
        assert(b@.skip(0) =~= b@);
    }
    while i < a.len() && i < b.len() && a[i] == b[i]
        invariant
            i <= a.len(),
            i <= b.len(),
            lex_le(a@, b@) == lex_le(a@.skip(i as int), b@.skip(i as int)),
        decreases a.len() - i,
    {
        proof {
            assert(a@.skip(i as int).drop_first() =~= a@.skip(i + 1));
            assert(b@.skip(i as int).drop_first() =~= b@.skip(i + 1));
        }
        i = i + 1;
    }
    if i == a.len() {
        true
    } else if i == b.len() {
        false
    } else {
        a[i] < b[i]
    }
}

/// Key bytes equal.
pub fn key_eq(a: &Vec<u8>, b: &Vec<u8>) -> (r: bool)
    ensures
        r == (a@ == b@),
{
    if a.len() != b.len() {
        return false;
    }
    let mut i: usize = 0;
    while i < a.len()
        invariant
            i <= a.len(),
            a.len() == b.len(),
            a@.take(i as int) == b@.take(i as int),
        decreases a.len() - i,
    {
        if a[i] != b[i] {
            return false;
        }
        proof {
            assert(a@.take(i + 1) =~= a@.take(i as int).push(a@[i as int]));
            assert(b@.take(i + 1) =~= b@.take(i as int).push(b@[i as int]));
        }
        i = i + 1;
    }
    proof {
        assert(a@.take(i as int) =~= a@);
        assert(b@.take(i as int) =~= b@);
    }
    true
}

fn seat_le(x: &(Vec<u8>, u64), y: &(Vec<u8>, u64)) -> (r: bool)
    ensures
        r == seat_leq(seat_view(*x), seat_view(*y)),
{
    x.1 > y.1 || (x.1 == y.1 && key_le(&x.0, &y.0))
}

fn clone_seat(x: &(Vec<u8>, u64)) -> (r: (Vec<u8>, u64))
    ensures
        seat_view(r) == seat_view(*x),
{
    let k = x.0.clone();
    proof {
        assert(k@ =~= x.0@);
    }
    (k, x.1)
}

/// Sorts seats into roster order.
pub fn sort_seats(scored: &[(Vec<u8>, u64)]) -> (r: Vec<(Vec<u8>, u64)>)
    ensures
        seats_view(r@) == seats_view(scored@).sort_by(seat_order()),
{
    let mut sorted: Vec<(Vec<u8>, u64)> = Vec::new();
    let mut i: usize = 0;
    proof {
        lemma_seat_order_total();
    }
    while i < scored.len()
        invariant
            i <= scored.len(),
            total_ordering(seat_order()),
            sorted_by(seats_view(sorted@), seat_order()),
            seats_view(sorted@).to_multiset() == seats_view(scored@.take(i as int)).to_multiset(),
        decreases scored.len() - i,
    {
        let x = clone_seat(&scored[i]);
        let mut p: usize = 0;
        while p < sorted.len() && seat_le(&sorted[p], &x)
            invariant
                p <= sorted.len(),
                forall|q: int| 0 <= q < p ==> seat_leq(seat_view(#[trigger] sorted@[q]), seat_view(x)),
            decreases sorted.len() - p,
        {
            p = p + 1;
        }
        let ghost old_v = seats_view(sorted@);
        let ghost xv = seat_view(x);
        proof {
            if p < sorted.len() {
                assert(seat_order()(old_v[p as int], xv) || seat_order()(xv, old_v[p as int]));
                assert forall|q: int| p <= q < old_v.len() implies seat_leq(xv, #[trigger] old_v[q]) by {
                    if q > p {
                        assert(seat_order()(old_v[p as int], old_v[q]));
                        assert(seat_order()(xv, old_v[p as int]));
                    }
                }
            }
        }
        sorted.insert(p, x);
        proof {
            let nv = seats_view(sorted@);
            assert(nv =~= old_v.insert(p as int, xv));
            assert forall|a: int, b: int| 0 <= a < b < nv.len() implies #[trigger] seat_order()(nv[a], nv[b]) by {
                if a < p && b > p {
                    assert(seat_order()(old_v[a], xv));
                    assert(seat_order()(xv, old_v[b - 1]));
                }
            }
            assert(scored@.take(i + 1) =~= scored@.take(i as int).push(scored@[i as int]));
            assert(seats_view(scored@.take(i + 1)) =~= seats_view(scored@.take(i as int)).push(xv));
        }
        i = i + 1;
    }
    proof {
        assert(scored@.take(i as int) =~= scored@);
        let v = seats_view(scored@);
        v.lemma_sort_by_ensures(seat_order());
        vstd::seq_lib::lemma_sorted_unique(seats_view(sorted@), v.sort_by(seat_order()), seat_order());
    }
    sorted
}

/// Prefix mass sums grow seat by seat and never pass the total.
pub proof fn lemma_mass_sum_prefix(s: Seq<(Seq<u8>, u64)>, i: int)
    requires
        0 <= i < s.len(),
    ensures
        mass_sum(s.take(i + 1)) == mass_sum(s.take(i)) + s[i].1,
        mass_sum(s.take(i + 1)) <= mass_sum(s),
    decreases s.len() - i,
{
    assert(s.take(i + 1).drop_last() =~= s.take(i));
    if i + 1 < s.len() {
        lemma_mass_sum_prefix(s, i + 1);
    } else {
        assert(s.take(i + 1) =~= s);
    }
}

/// `rv` is the roster of the seats `v`: the minimal prefix of `v` in
/// roster order whose cumulative mass reaches ⌈total · 610/987⌉, empty
/// when the total mass is zero.
pub open spec fn is_roster_of(v: Seq<(Seq<u8>, u64)>, rv: Seq<(Seq<u8>, u64)>) -> bool {
    let total = mass_sum(v);
    let sorted = v.sort_by(seat_order());
    let target = (total * 610 + 986) / 987;
    &&& total == 0 ==> rv.len() == 0
    &&& total > 0 ==> {
        &&& rv.len() <= sorted.len()
        &&& rv == sorted.take(rv.len() as int)
        &&& forall|k: int| 0 <= k < rv.len() ==> prefix_mass(sorted, k) < target
        &&& (rv.len() == sorted.len() || prefix_mass(sorted, rv.len() as int) >= target)
    }
}

/// Roster derivation with integer masses: the minimal prefix of the seats
/// in roster order whose cumulative mass reaches ⌈total · 610/987⌉, the
/// same rational as the seal threshold. Zero total mass ⇒ empty roster.
/// The roster is a function of the seats and not of their order: it is
/// the one roster of `scored`, and it is the roster of every reordering
/// of `scored` too, so two calls on reorderings of the same seats return
/// the same roster.
pub fn derive_roster_with_mass(scored: &[(Vec<u8>, u64)]) -> (r: Vec<(Vec<u8>, u64)>)
    requires
        mass_sum(seats_view(scored@)) * 610 + 986 <= u64::MAX,
    ensures
        is_roster_of(seats_view(scored@), seats_view(r@)),
        forall|rv: Seq<(Seq<u8>, u64)>| #[trigger] is_roster_of(seats_view(scored@), rv) ==> rv == seats_view(r@),
        forall|other: Seq<(Seq<u8>, u64)>|
            #![trigger other.to_multiset()]
            #![trigger is_roster_of(other, seats_view(r@))]
            other.to_multiset() == seats_view(scored@).to_multiset() ==> is_roster_of(other, seats_view(r@)),
{
    let ghost v = seats_view(scored@);
    let mut total: u64 = 0;
    let mut i: usize = 0;
    proof {
        assert(v.take(0) =~= Seq::<(Seq<u8>, u64)>::empty());
    }
    while i < scored.len()
        invariant
            i <= scored.len(),
            v == seats_view(scored@),
            total == mass_sum(v.take(i as int)),
            mass_sum(v) * 610 + 986 <= u64::MAX,
        decreases scored.len() - i,
    {
        proof {
            lemma_mass_sum_prefix(v, i as int);
        }
        total = total + scored[i].1;
        i = i + 1;
    }
    proof {
        assert(v.take(i as int) =~= v);
    }
    if total == 0 {
        proof {
            lemma_roster_is_of_the_seats(v, Seq::empty());
        }
        return Vec::new();
    }
    let mut sorted = sort_seats(scored);
    let target = mass_seal_threshold(total);
    let ghost sv = seats_view(sorted@);
    let mut cumulative: u128 = 0;
    let mut j: usize = 0;
    proof {
        assert(sv.take(0) =~= Seq::<(Seq<u8>, u64)>::empty());
    }
    while j < sorted.len() && cumulative < target as u128
        invariant
            j <= sorted.len(),
            sv == seats_view(sorted@),
            cumulative == prefix_mass(sv, j as int),
            forall|k: int| 0 <= k < j ==> prefix_mass(sv, k) < target,
        decreases sorted.len() - j,
    {
        proof {
            lemma_mass_sum_prefix(sv, j as int);
        }
        cumulative = cumulative + sorted[j].1 as u128;
        j = j + 1;
    }
    sorted.truncate(j);
    proof {
        assert(seats_view(sorted@) =~= sv.take(j as int));
        lemma_roster_is_of_the_seats(v, seats_view(sorted@));
    }
    sorted
}

/// Removing a seat takes its mass out of the sum.
pub proof fn lemma_mass_sum_remove(s: Seq<(Seq<u8>, u64)>, j: int)
    requires
        0 <= j < s.len(),
    ensures
        mass_sum(s) == mass_sum(s.remove(j)) + s[j].1,
    decreases s.len(),
{
    if j == s.len() - 1 {
        assert(s.remove(j) =~= s.drop_last());
    } else {
        lemma_mass_sum_remove(s.drop_last(), j);
        assert(s.remove(j).drop_last() =~= s.drop_last().remove(j));
        assert(s.remove(j).last() == s.last());
    }
}

/// The total mass does not depend on the order of the seats.
pub proof fn lemma_mass_sum_permutation(x: Seq<(Seq<u8>, u64)>, y: Seq<(Seq<u8>, u64)>)
    requires
        x.to_multiset() == y.to_multiset(),
    ensures
        mass_sum(x) == mass_sum(y),
    decreases x.len(),
{
    if x.len() == 0 {
        assert(y.len() == x.to_multiset().len());
    } else {
        let e = x.last();
        assert(x[x.len() - 1] == e);
        assert(x.contains(e));
        assert(x.to_multiset().count(e) > 0);
        assert(y.to_multiset().count(e) > 0);
        assert(y.contains(e));
        let j = choose|j: int| 0 <= j < y.len() && y[j] == e;
        lemma_mass_sum_remove(y, j);
        assert(x.drop_last() =~= x.remove(x.len() - 1));
        assert(x.drop_last().to_multiset() == y.remove(j).to_multiset());
        lemma_mass_sum_permutation(x.drop_last(), y.remove(j));
    }
}

/// A roster of some seats is the roster of every reordering of them, and
/// no other sequence is a roster of them.
pub proof fn lemma_roster_is_of_the_seats(v: Seq<(Seq<u8>, u64)>, rv: Seq<(Seq<u8>, u64)>)
    requires
        is_roster_of(v, rv),
    ensures
        forall|r2: Seq<(Seq<u8>, u64)>| #[trigger] is_roster_of(v, r2) ==> r2 == rv,
        forall|other: Seq<(Seq<u8>, u64)>|
            #![trigger other.to_multiset()]
            #![trigger is_roster_of(other, rv)]
            other.to_multiset() == v.to_multiset() ==> is_roster_of(other, rv),
{
    assert forall|r2: Seq<(Seq<u8>, u64)>| #[trigger] is_roster_of(v, r2) implies r2 == rv by {
        lemma_roster_order_independent(v, v, rv, r2);
    }
    assert forall|other: Seq<(Seq<u8>, u64)>| other.to_multiset() == v.to_multiset() implies #[trigger] is_roster_of(other, rv) by {
        lemma_seat_order_total();
        v.lemma_sort_by_ensures(seat_order());
        other.lemma_sort_by_ensures(seat_order());
        vstd::seq_lib::lemma_sorted_unique(v.sort_by(seat_order()), other.sort_by(seat_order()), seat_order());
        lemma_mass_sum_permutation(v, other);
    }
}

/// The roster is a function of the multiset of seats: reordering the
/// input never changes it, since seats are ordered by mass and then by
/// key bytes, a total order.
pub proof fn lemma_roster_order_independent(
    a: Seq<(Seq<u8>, u64)>,
    b: Seq<(Seq<u8>, u64)>,
    ra: Seq<(Seq<u8>, u64)>,
    rb: Seq<(Seq<u8>, u64)>,
)
    requires
        a.to_multiset() == b.to_multiset(),
        is_roster_of(a, ra),
        is_roster_of(b, rb),
    ensures
        ra == rb,
{
    lemma_seat_order_total();
    a.lemma_sort_by_ensures(seat_order());
    b.lemma_sort_by_ensures(seat_order());
    let sa = a.sort_by(seat_order());
    let sb = b.sort_by(seat_order());
    vstd::seq_lib::lemma_sorted_unique(sa, sb, seat_order());
    assert(sa == sb);
    lemma_mass_sum_permutation(a, b);
    if mass_sum(a) > 0 {
        let target = (mass_sum(a) * 610 + 986) / 987;
        if ra.len() < rb.len() {
            assert(prefix_mass(sa, ra.len() as int) < target);
        } else if rb.len() < ra.len() {
            assert(prefix_mass(sa, rb.len() as int) < target);
        }
        assert(ra.len() == rb.len());
    }
}

pub open spec fn keys_view(s: Seq<Vec<u8>>) -> Seq<Seq<u8>> {
    s.map_values(|k: Vec<u8>| k@)
}

/// How many keys of `a` (counted with multiplicity) also occur in `b`.
pub open spec fn count_shared(a: Seq<Seq<u8>>, b: Seq<Seq<u8>>) -> nat
    decreases a.len(),
{
    if a.len() == 0 {
        0
    } else {
        count_shared(a.drop_last(), b) + if b.contains(a.last()) { 1nat } else { 0nat }
    }
}

/// Whether `k` is one of the keys of `b`.
pub fn contains_key(b: &[Vec<u8>], k: &Vec<u8>) -> (r: bool)
    ensures
        r == keys_view(b@).contains(k@),
{
    let mut i: usize = 0;
    while i < b.len()
        invariant
            i <= b.len(),
            forall|q: int| 0 <= q < i ==> b@[q]@ != k@,
        decreases b.len() - i,
    {
        if key_eq(&b[i], k) {
            proof {
                assert(keys_view(b@)[i as int] == k@);
            }
            return true;
        }
        i = i + 1;
    }
    proof {
        if keys_view(b@).contains(k@) {
            let q = choose|q: int| 0 <= q < keys_view(b@).len() && keys_view(b@)[q] == k@;
            assert(b@[q]@ == k@);
        }
    }
    false
}

/// The integer part of the Jaccard distance between two key sets:
/// (|sym-diff|, |union|) with |union| = |a| + |b| − |a ∩ b|. The
/// distance is their ratio, 0 when the union is empty.
pub fn jaccard_counts(a: &[Vec<u8>], b: &[Vec<u8>]) -> (r: (usize, usize))
    requires
        a@.len() + b@.len() <= usize::MAX,
        2 * count_shared(keys_view(a@), keys_view(b@)) <= a@.len() + b@.len(),
    ensures
        ({
            let in_both = count_shared(keys_view(a@), keys_view(b@));
            let union = a@.len() + b@.len() - in_both;
            r.0 == union - in_both && r.1 == union
        }),
{
    let ghost ka = keys_view(a@);
    let ghost kb = keys_view(b@);
    let mut in_both: usize = 0;
    let mut i: usize = 0;
    proof {
        assert(ka.take(0) =~= Seq::<Seq<u8>>::empty());
    }
    while i < a.len()
        invariant
            i <= a.len(),
            ka == keys_view(a@),
            kb == keys_view(b@),
            in_both == count_shared(ka.take(i as int), kb),
            in_both <= i,
        decreases a.len() - i,
    {
        proof {
            assert(ka.take(i + 1).drop_last() =~= ka.take(i as int));
        }
        if contains_key(b, &a[i]) {
            in_both = in_both + 1;
        }
        i = i + 1;
    }
    proof {
        assert(ka.take(i as int) =~= ka);
    }
    let union = a.len() + b.len() - in_both;
    (union - in_both, union)
}


/// A copy of a key list.
pub fn clone_keys(v: &[Vec<u8>]) -> (r: Vec<Vec<u8>>)
    ensures
        keys_view(r@) == keys_view(v@),
{
    let mut out: Vec<Vec<u8>> = Vec::new();
    let mut i: usize = 0;
    while i < v.len()
        invariant
            i <= v@.len(),
            out@.len() == i,
            forall|q: int| 0 <= q < i ==> out@[q]@ == v@[q]@,
        decreases v@.len() - i,
    {
        let k = v[i].clone();
        proof {
            assert(k@ =~= v@[i as int]@);
        }
        out.push(k);
        i = i + 1;
    }
    proof {
        assert(keys_view(out@) =~= keys_view(v@));
    }
    out
}


/// Lexicographic key order.
pub open spec fn key_order() -> spec_fn(Seq<u8>, Seq<u8>) -> bool {
    |x: Seq<u8>, y: Seq<u8>| lex_le(x, y)
}

/// The byte-key order is total.
pub proof fn lemma_key_order_total()
    ensures
        total_ordering(key_order()),
{
    assert forall|x: Seq<u8>| #[trigger] key_order()(x, x) by {
        lemma_lex_le_reflexive(x);
    }
    assert forall|x: Seq<u8>, y: Seq<u8>| #[trigger] key_order()(x, y) && #[trigger] key_order()(y, x) implies x == y by {
        lemma_lex_le_antisymmetric(x, y);
    }
    assert forall|x: Seq<u8>, y: Seq<u8>, z: Seq<u8>|
        #[trigger] key_order()(x, y) && #[trigger] key_order()(y, z) implies key_order()(x, z) by {
        lemma_lex_le_transitive(x, y, z);
    }
    assert forall|x: Seq<u8>, y: Seq<u8>| #[trigger] key_order()(x, y) || #[trigger] key_order()(y, x) by {
        lemma_lex_le_total(x, y);
    }
}

/// Keys in ascending byte order.
pub fn sort_keys(keys: &[Vec<u8>]) -> (r: Vec<Vec<u8>>)
    ensures
        keys_view(r@) == keys_view(keys@).sort_by(key_order()),
{
    let mut sorted: Vec<Vec<u8>> = Vec::new();
    let mut i: usize = 0;
    proof {
        lemma_key_order_total();
    }
    while i < keys.len()
        invariant
            i <= keys.len(),
            total_ordering(key_order()),
            sorted_by(keys_view(sorted@), key_order()),
            keys_view(sorted@).to_multiset() == keys_view(keys@.take(i as int)).to_multiset(),
        decreases keys.len() - i,
    {
        let x = keys[i].clone();
        proof {
            assert(x@ =~= keys@[i as int]@);
        }
        let mut p: usize = 0;
        while p < sorted.len() && key_le(&sorted[p], &x)
            invariant
                p <= sorted.len(),
                forall|q: int| 0 <= q < p ==> lex_le((#[trigger] sorted@[q])@, x@),
            decreases sorted.len() - p,
        {
            p = p + 1;
        }
        let ghost old_v = keys_view(sorted@);
        let ghost xv = x@;
        proof {
            if p < sorted.len() {
                assert(key_order()(old_v[p as int], xv) || key_order()(xv, old_v[p as int]));
                assert forall|q: int| p <= q < old_v.len() implies lex_le(xv, #[trigger] old_v[q]) by {
                    if q > p {
                        assert(key_order()(old_v[p as int], old_v[q]));
                        assert(key_order()(xv, old_v[p as int]));
                    }
                }
            }
        }
        sorted.insert(p, x);
        proof {
            let nv = keys_view(sorted@);
            assert(nv =~= old_v.insert(p as int, xv));
            assert forall|a: int, b: int| 0 <= a < b < nv.len() implies #[trigger] key_order()(nv[a], nv[b]) by {
                if a < p && b > p {
                    assert(key_order()(old_v[a], xv));
                    assert(key_order()(xv, old_v[b - 1]));
                }
            }
            assert(keys@.take(i + 1) =~= keys@.take(i as int).push(keys@[i as int]));
            assert(keys_view(keys@.take(i + 1)) =~= keys_view(keys@.take(i as int)).push(xv));
        }
        i = i + 1;
    }
    proof {
        assert(keys@.take(i as int) =~= keys@);
        let v = keys_view(keys@);
        v.lemma_sort_by_ensures(key_order());
        vstd::seq_lib::lemma_sorted_unique(keys_view(sorted@), v.sort_by(key_order()), key_order());
    }
    sorted
}

} // verus!
