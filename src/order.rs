//! A total order on names: lexicographic on their UTF-8 bytes.
use vstd::prelude::*;
use vstd::relations::{sorted_by, total_ordering};
use vstd::utf8::{encode_utf8, encode_utf8_decode_utf8};

verus! {

/// Lexicographic `<=` on byte strings; a proper prefix comes first.
pub open spec fn bytes_leq(a: Seq<u8>, b: Seq<u8>) -> bool
    decreases a.len(),
{
    if a.len() == 0 {
        true
    } else if b.len() == 0 {
        false
    } else if a[0] != b[0] {
        a[0] < b[0]
    } else {
        bytes_leq(a.drop_first(), b.drop_first())
    }
}

/// `a` comes no later than `b` when both are written in UTF-8.
pub open spec fn name_leq(a: Seq<char>, b: Seq<char>) -> bool {
    bytes_leq(encode_utf8(a), encode_utf8(b))
}

/// The order on names as a relation value.
pub open spec fn name_order() -> spec_fn(Seq<char>, Seq<char>) -> bool {
    |a: Seq<char>, b: Seq<char>| name_leq(a, b)
}

/// A sequence of names in ascending order.
pub open spec fn names_sorted(s: Seq<Seq<char>>) -> bool {
    sorted_by(s, name_order())
}

/// The views of a sequence of strings.
pub open spec fn views(s: Seq<String>) -> Seq<Seq<char>> {
    s.map_values(|x: String| x@)
}

proof fn lemma_bytes_leq_refl(a: Seq<u8>)
    ensures
        bytes_leq(a, a),
    decreases a.len(),
{
    if a.len() > 0 {
        lemma_bytes_leq_refl(a.drop_first());
    }
}

proof fn lemma_bytes_leq_antisym(a: Seq<u8>, b: Seq<u8>)
    requires
        bytes_leq(a, b),
        bytes_leq(b, a),
    ensures
        a == b,
    decreases a.len(),
{
    if a.len() > 0 && b.len() > 0 {
        lemma_bytes_leq_antisym(a.drop_first(), b.drop_first());
        assert(a =~= seq![a[0]] + a.drop_first());
        assert(b =~= seq![b[0]] + b.drop_first());
    }
}

proof fn lemma_bytes_leq_trans(a: Seq<u8>, b: Seq<u8>, c: Seq<u8>)
    requires
        bytes_leq(a, b),
        bytes_leq(b, c),
    ensures
        bytes_leq(a, c),
    decreases a.len(),
{
    if a.len() > 0 && b.len() > 0 && c.len() > 0 {
        if a[0] == b[0] && b[0] == c[0] {
            lemma_bytes_leq_trans(a.drop_first(), b.drop_first(), c.drop_first());
        }
    }
}

proof fn lemma_bytes_leq_total(a: Seq<u8>, b: Seq<u8>)
    ensures
        bytes_leq(a, b) || bytes_leq(b, a),
    decreases a.len(),
{
    if a.len() > 0 && b.len() > 0 && a[0] == b[0] {
        lemma_bytes_leq_total(a.drop_first(), b.drop_first());
    }
}

/// The order on names is a total order.
pub proof fn lemma_name_order_total()
    ensures
        total_ordering(name_order()),
{
    assert forall|a: Seq<char>| #[trigger] name_order()(a, a) by {
        lemma_bytes_leq_refl(encode_utf8(a));
    }
    assert forall|a: Seq<char>, b: Seq<char>|
        #[trigger] name_order()(a, b) && #[trigger] name_order()(b, a) implies a == b by {
        lemma_bytes_leq_antisym(encode_utf8(a), encode_utf8(b));
        encode_utf8_decode_utf8(a);
        encode_utf8_decode_utf8(b);
    }
    assert forall|a: Seq<char>, b: Seq<char>, c: Seq<char>|
        #[trigger] name_order()(a, b) && #[trigger] name_order()(b, c) implies name_order()(
        a,
        c,
    ) by {
        lemma_bytes_leq_trans(encode_utf8(a), encode_utf8(b), encode_utf8(c));
    }
    assert forall|a: Seq<char>, b: Seq<char>|
        #[trigger] name_order()(a, b) || #[trigger] name_order()(b, a) by {
        lemma_bytes_leq_total(encode_utf8(a), encode_utf8(b));
    }
}

/// Whether name `a` comes no later than name `b`.
pub fn name_le(a: &str, b: &str) -> (r: bool)
    ensures
        r == name_leq(a@, b@),
{
    let x = a.as_bytes();
    let y = b.as_bytes();
    let ghost xs = x@;
    let ghost ys = y@;
    let mut i: usize = 0;
    assert(xs.skip(0) =~= xs);
    assert(ys.skip(0) =~= ys);
    while i < x.len() && i < y.len() && x[i] == y[i]
        invariant
            x@ == xs,
            y@ == ys,
            xs == encode_utf8(a@),
            ys == encode_utf8(b@),
            i <= xs.len(),
            i <= ys.len(),
            bytes_leq(xs, ys) == bytes_leq(xs.skip(i as int), ys.skip(i as int)),
        decreases xs.len() - i,
    {
        assert(xs.skip(i as int).drop_first() =~= xs.skip(i + 1));
        assert(ys.skip(i as int).drop_first() =~= ys.skip(i + 1));
        i = i + 1;
    }
    if i == x.len() {
        true
    } else if i == y.len() {
        false
    } else {
        x[i] < y[i]
    }
}

/// Puts `s` at position `j` of a sorted sequence, where everything before `j`
/// comes no later than `s` and the element at `j`, if any, comes later.
proof fn lemma_insert_sorted(out: Seq<Seq<char>>, j: int, s: Seq<char>)
    requires
        names_sorted(out),
        0 <= j <= out.len(),
        forall|k: int| 0 <= k < j ==> name_leq(#[trigger] out[k], s),
        j < out.len() ==> !name_leq(out[j], s),
    ensures
        names_sorted(out.insert(j, s)),
{
    lemma_name_order_total();
    let r = out.insert(j, s);
    if j < out.len() {
        assert(name_order()(out[j], s) || name_order()(s, out[j]));
        assert(name_order()(s, out[j]));
    }
    assert forall|a: int, b: int| 0 <= a < b < r.len() implies #[trigger] name_order()(
        r[a],
        r[b],
    ) by {
        if b < j {
            assert(name_order()(out[a], out[b]));
        } else if b == j {
            assert(name_leq(out[a], s));
        } else if a < j {
            assert(name_order()(out[a], out[b - 1]));
        } else if a == j {
            if b - 1 > j {
                assert(name_order()(out[j], out[b - 1]));
            }
        } else {
            assert(name_order()(out[a - 1], out[b - 1]));
        }
    }
}

/// The names of `v` in ascending order, duplicates kept.
pub fn sort_names(v: Vec<String>) -> (r: Vec<String>)
    ensures
        views(r@) == views(v@).sort_by(name_order()),
        names_sorted(views(r@)),
        views(r@).to_multiset() == views(v@).to_multiset(),
{
    broadcast use vstd::seq_lib::group_to_multiset_ensures;

    let mut out: Vec<String> = Vec::new();
    let mut i: usize = 0;
    while i < v.len()
        invariant
            i <= v.len(),
            names_sorted(views(out@)),
            views(out@).to_multiset() == views(v@.take(i as int)).to_multiset(),
        decreases v.len() - i,
    {
        let s = v[i].clone();
        let mut j: usize = 0;
        while j < out.len() && name_le(out[j].as_str(), s.as_str())
            invariant
                j <= out.len(),
                forall|k: int| 0 <= k < j ==> name_leq(#[trigger] views(out@)[k], s@),
            decreases out.len() - j,
        {
            j = j + 1;
        }
        proof {
            lemma_insert_sorted(views(out@), j as int, s@);
            assert(views(v@.take(i + 1)) =~= views(v@.take(i as int)).push(s@));
        }
        let ghost before = out@;
        out.insert(j, s);
        proof {
            assert(views(out@) =~= views(before).insert(j as int, v@[i as int]@));
            vstd::seq_lib::to_multiset_insert(views(before), j as int, v@[i as int]@);
            vstd::seq_lib::to_multiset_build(views(v@.take(i as int)), v@[i as int]@);
            assert(views(v@.take(i + 1)) =~= views(v@.take(i as int)).push(v@[i as int]@));
        }
        i = i + 1;
    }
    proof {
        assert(v@.take(v@.len() as int) =~= v@);
        lemma_name_order_total();
        views(v@).lemma_sort_by_ensures(name_order());
        vstd::seq_lib::lemma_sorted_unique(views(out@), views(v@).sort_by(name_order()), name_order());
    }
    out
}

/// Two sequences with the same elements, counted with multiplicity, hold
/// the same set, and one is free of duplicates when the other is.
pub proof fn lemma_same_multiset<A>(a: Seq<A>, b: Seq<A>)
    requires
        a.to_multiset() == b.to_multiset(),
    ensures
        a.to_set() == b.to_set(),
        a.no_duplicates() ==> b.no_duplicates(),
{
    assert forall|x: A| #[trigger] a.to_set().contains(x) == b.to_set().contains(x) by {
        vstd::seq_lib::to_multiset_contains(a, x);
        vstd::seq_lib::to_multiset_contains(b, x);
    }
    assert(a.to_set() =~= b.to_set());
    if a.no_duplicates() {
        a.lemma_multiset_has_no_duplicates();
        b.lemma_multiset_has_no_duplicates_conv();
    }
}

} // verus!
