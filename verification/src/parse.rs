//! The normalization pipeline: attribute parsers, the item catalog
//! builder, and the aggregate builder.

use vstd::prelude::*;

use crate::model::Error;
use crate::node::{Element, SpecElement};
use crate::text::{spec_match_at, str_eq};

verus! {

/// The reading of a boolean attribute: only the exact words `true`
/// and `false` are accepted.
pub open spec fn spec_parse_bool(s: Seq<char>) -> Option<bool> {
    if s == "true"@ {
        Some(true)
    } else if s == "false"@ {
        Some(false)
    } else {
        None
    }
}

/// Parses a boolean attribute value.
pub fn parse_bool(s: &str) -> (r: Option<bool>)
    ensures
        r == spec_parse_bool(s@),
{
    if str_eq(s, "true") {
        Some(true)
    } else if str_eq(s, "false") {
        Some(false)
    } else {
        None
    }
}

/// A value the deduplicator can compare and copy: equality of the
/// values is equality of their views.
pub trait DedupKey: DeepView + Sized {
    /// Whether the two values are the same.
    fn key_eq(&self, other: &Self) -> (r: bool)
        ensures
            r == (self.deep_view() == other.deep_view()),
    ;

    /// A copy with the same view.
    fn key_dup(&self) -> (r: Self)
        ensures
            r.deep_view() == self.deep_view(),
    ;
}

impl DedupKey for String {
    fn key_eq(&self, other: &Self) -> (r: bool) {
        str_eq(self.as_str(), other.as_str())
    }

    fn key_dup(&self) -> (r: Self) {
        self.clone()
    }
}

impl DedupKey for crate::model::RequiredItem {
    fn key_eq(&self, other: &Self) -> (r: bool) {
        self.same_as(other)
    }

    fn key_dup(&self) -> (r: Self) {
        self.duplicate()
    }
}

/// How often `v` occurs in `s`.
pub open spec fn spec_count<A>(s: Seq<A>, v: A) -> int
    decreases s.len(),
{
    if s.len() == 0 {
        0
    } else {
        (if s[0] == v {
            1int
        } else {
            0int
        }) + spec_count(s.drop_first(), v)
    }
}

/// Whether `v` occurs in `s` before index `i`.
pub open spec fn spec_seen<A>(s: Seq<A>, i: int, v: A) -> bool {
    exists|j: int| 0 <= j < i && s[j] == v
}

/// The deduplicated tail of `s` from index `i` on: one entry per
/// distinct value not seen before `i`, carrying its total occurrence
/// count in all of `s`, in first-occurrence order.
pub open spec fn spec_dedup_from<A>(s: Seq<A>, i: int) -> Seq<(A, int)>
    decreases (if i < s.len() {
        s.len() - i
    } else {
        0
    }),
{
    if i < 0 || i >= s.len() {
        Seq::empty()
    } else if spec_seen(s, i, s[i]) {
        spec_dedup_from(s, i + 1)
    } else {
        seq![(s[i], spec_count(s, s[i]))] + spec_dedup_from(s, i + 1)
    }
}

/// The deduplication of a whole sequence.
pub open spec fn spec_dedup<A>(s: Seq<A>) -> Seq<(A, int)> {
    spec_dedup_from(s, 0)
}

/// The counts of a deduplicated sequence, as mathematical integers.
pub open spec fn counts_to_int<A>(s: Seq<(A, i32)>) -> Seq<(A, int)> {
    s.map_values(|p: (A, i32)| (p.0, p.1 as int))
}

/// Counting distributes over appending one element.
proof fn lemma_spec_count_push<A>(s: Seq<A>, x: A, v: A)
    ensures
        spec_count(s.push(x), v) == spec_count(s, v) + (if x == v {
            1int
        } else {
            0int
        }),
    decreases s.len(),
{
    if s.len() == 0 {
        assert(s.push(x).drop_first() =~= Seq::<A>::empty());
        assert(s.push(x)[0] == x);
        assert(spec_count(s.push(x), v) == (if x == v {
            1int
        } else {
            0int
        }) + spec_count(s.push(x).drop_first(), v));
        assert(spec_count(s.push(x).drop_first(), v) == 0);
    } else {
        lemma_spec_count_push(s.drop_first(), x, v);
        assert(s.push(x).drop_first() =~= s.drop_first().push(x));
        assert(s.push(x)[0] == s[0]);
        assert(spec_count(s.push(x), v) == (if s[0] == v {
            1int
        } else {
            0int
        }) + spec_count(s.push(x).drop_first(), v));
        assert(spec_count(s.push(x).drop_first(), v) == spec_count(s.drop_first().push(x), v));
        assert(spec_count(s, v) == (if s[0] == v {
            1int
        } else {
            0int
        }) + spec_count(s.drop_first(), v));
    }
}

/// `spec_count` agrees with the multiset reading of the sequence.
pub proof fn lemma_spec_count_is_multiset_count<A>(s: Seq<A>, v: A)
    ensures
        spec_count(s, v) == s.to_multiset().count(v),
    decreases s.len(),
{
    broadcast use vstd::seq_lib::group_to_multiset_ensures;
    broadcast use vstd::multiset::group_multiset_axioms;

    if s.len() == 0 {
        assert(s.to_multiset().count(v) == 0) by {
            s.to_multiset_ensures();
            assert(s.to_multiset().len() == 0);
            if s.to_multiset().count(v) > 0 {
                assert(s.to_multiset().contains(v));
            }
        }
    } else {
        let s0 = s.drop_last();
        let x = s.last();
        lemma_spec_count_is_multiset_count(s0, v);
        lemma_spec_count_push(s0, x, v);
        assert(s =~= s0.push(x));
        assert(s0.push(x).to_multiset() =~= s0.to_multiset().insert(x));
    }
}

/// Counts occurrences of `x` in `things`.
fn count_occurrences<T: DedupKey>(things: &[T], x: &T) -> (c: usize)
    ensures
        c == spec_count(things.deep_view(), x.deep_view()),
        c <= things@.len(),
{
    let ghost s = things.deep_view();
    proof {
        assert(s.subrange(0, s.len() as int) =~= s);
    }
    let mut c: usize = 0;
    let mut i: usize = 0;
    while i < things.len()
        invariant
            i <= things@.len(),
            s == things.deep_view(),
            c <= i,
            c + spec_count(s.subrange(i as int, s.len() as int), x.deep_view()) == spec_count(s, x.deep_view()),
        decreases things@.len() - i,
    {
        let ghost suffix = s.subrange(i as int, s.len() as int);
        proof {
            assert(suffix[0] == s[i as int]);
            assert(suffix.drop_first() =~= s.subrange(i as int + 1, s.len() as int));
        }
        if things[i].key_eq(x) {
            c = c + 1;
        }
        i = i + 1;
    }
    proof {
        assert(s.subrange(i as int, s.len() as int) =~= Seq::<T::V>::empty());
        lemma_spec_count_nonneg(s, x.deep_view());
        assert(s.subrange(0, s.len() as int) =~= s);
    }
    c
}

/// Occurrence counts are non-negative and bounded by the length.
proof fn lemma_spec_count_nonneg<A>(s: Seq<A>, v: A)
    ensures
        0 <= spec_count(s, v) <= s.len(),
    decreases s.len(),
{
    if s.len() > 0 {
        lemma_spec_count_nonneg(s.drop_first(), v);
    }
}

/// Collapses repeated values into one entry per distinct value with
/// its repetition count, first occurrences first: the shared
/// deduplication step of the recipe parsers.
pub fn dedup_things<T: DedupKey>(things: &[T]) -> (r: Vec<(T, i32)>)
    requires
        things@.len() <= i32::MAX,
    ensures
        counts_to_int(r.deep_view()) == spec_dedup(things.deep_view()),
{
    let ghost s = things.deep_view();
    let mut dedupped: Vec<(T, i32)> = Vec::new();
    let mut i: usize = 0;
    while i < things.len()
        invariant
            i <= things@.len(),
            things@.len() <= i32::MAX,
            s == things.deep_view(),
            counts_to_int(dedupped.deep_view()) + spec_dedup_from(s, i as int) == spec_dedup(s),
            forall|k: int| 0 <= k < dedupped.deep_view().len() ==> spec_seen(
                s,
                i as int,
                (#[trigger] dedupped.deep_view()[k]).0,
            ),
            forall|j: int| #![trigger s[j]] 0 <= j < i ==> exists|k: int|
                0 <= k < dedupped.deep_view().len() && (#[trigger] dedupped.deep_view()[k]).0
                    == s[j],
        decreases things@.len() - i,
    {
        let thing = &things[i];
        let mut found = false;
        let mut k: usize = 0;
        while k < dedupped.len() && !found
            invariant
                k <= dedupped@.len(),
                s == things.deep_view(),
                i < things@.len(),
                found ==> exists|k2: int|
                    0 <= k2 < dedupped.deep_view().len() && (#[trigger] dedupped.deep_view()[k2]).0
                        == thing.deep_view(),
                !found ==> forall|k2: int|
                    0 <= k2 < k ==> (#[trigger] dedupped.deep_view()[k2]).0 != thing.deep_view(),
            decreases dedupped@.len() - k + (if found {
                0int
            } else {
                1int
            }),
        {
            if dedupped[k].0.key_eq(thing) {
                found = true;
                proof {
                    assert(dedupped.deep_view()[k as int].0 == thing.deep_view());
                }
            } else {
                k = k + 1;
            }
        }
        proof {
            assert(thing.deep_view() == s[i as int]);
            if !found {
                assert(!spec_seen(s, i as int, s[i as int])) by {
                    if spec_seen(s, i as int, s[i as int]) {
                        let j = choose|j: int| 0 <= j < i as int && s[j] == s[i as int];
                        let k2 = choose|k2: int|
                            0 <= k2 < dedupped.deep_view().len() && (
                            #[trigger] dedupped.deep_view()[k2]).0 == s[j];
                        assert(dedupped.deep_view()[k2].0 != thing.deep_view());
                    }
                }
            }
        }
        if !found {
            let count = count_occurrences(things, thing);
            let ghost dv0 = dedupped.deep_view();
            proof {
                lemma_spec_count_nonneg(s, thing.deep_view());
                assert(spec_count(s, s[i as int]) >= 1) by {
                    lemma_count_at_index(s, i as int);
                }
            }
            dedupped.push((thing.key_dup(), count as i32));
            proof {
                assert(dedupped.deep_view() =~= dv0.push((thing.deep_view(), count as i32)));
                assert(counts_to_int(dedupped.deep_view()) =~= counts_to_int(dv0).push(
                    (thing.deep_view(), count as int),
                ));
                assert(spec_dedup_from(s, i as int) == seq![
                    (s[i as int], spec_count(s, s[i as int])),
                ] + spec_dedup_from(s, i as int + 1));
                assert(counts_to_int(dv0).push((thing.deep_view(), count as int))
                    + spec_dedup_from(s, i as int + 1) =~= counts_to_int(dv0) + spec_dedup_from(
                    s,
                    i as int,
                ));
                assert forall|k2: int| 0 <= k2 < dedupped.deep_view().len() implies spec_seen(
                    s,
                    i as int + 1,
                    (#[trigger] dedupped.deep_view()[k2]).0,
                ) by {
                    if k2 < dv0.len() {
                        assert(dedupped.deep_view()[k2] == dv0[k2]);
                        assert(spec_seen(s, i as int, dv0[k2].0));
                        let j = choose|j: int| 0 <= j < i as int && s[j] == dv0[k2].0;
                        assert(s[j] == dedupped.deep_view()[k2].0);
                    } else {
                        assert(dedupped.deep_view()[k2].0 == s[i as int]);
                    }
                }
                assert forall|j: int| #![trigger s[j]] 0 <= j < i as int + 1 implies exists|
                    k2: int,
                |
                    0 <= k2 < dedupped.deep_view().len() && (#[trigger] dedupped.deep_view()[k2]).0 == s[j] by {
                    if j < i as int {
                        let k2 = choose|k2: int|
                            0 <= k2 < dv0.len() && (#[trigger] dv0[k2]).0 == s[j];
                        assert(dedupped.deep_view()[k2].0 == s[j]);
                    } else {
                        assert(dedupped.deep_view()[dedupped.deep_view().len() - 1].0 == s[j]);
                    }
                }
            }
        } else {
            proof {
                assert(spec_seen(s, i as int, s[i as int]));
                assert(spec_dedup_from(s, i as int) == spec_dedup_from(s, i as int + 1));
                assert forall|k2: int| 0 <= k2 < dedupped.deep_view().len() implies spec_seen(
                    s,
                    i as int + 1,
                    (#[trigger] dedupped.deep_view()[k2]).0,
                ) by {
                    assert(spec_seen(s, i as int, dedupped.deep_view()[k2].0));
                    let j = choose|j: int|
                        0 <= j < i as int && s[j] == dedupped.deep_view()[k2].0;
                    assert(s[j] == dedupped.deep_view()[k2].0);
                }
                assert forall|j: int| #![trigger s[j]] 0 <= j < i as int + 1 implies exists|
                    k2: int,
                |
                    0 <= k2 < dedupped.deep_view().len() && (#[trigger] dedupped.deep_view()[k2]).0 == s[j] by {
                    if j == i as int {
                        let k2 = choose|k2: int|
                            0 <= k2 < dedupped.deep_view().len() && (
                            #[trigger] dedupped.deep_view()[k2]).0 == thing.deep_view();
                        assert(dedupped.deep_view()[k2].0 == s[j]);
                    }
                }
            }
        }
        i = i + 1;
    }
    proof {
        assert(spec_dedup_from(s, i as int) =~= Seq::<(T::V, int)>::empty());
        assert(counts_to_int(dedupped.deep_view()) + Seq::<(T::V, int)>::empty()
            =~= counts_to_int(dedupped.deep_view()));
    }
    dedupped
}

/// A value occurs at least once at or after its own index.
proof fn lemma_count_at_index<A>(s: Seq<A>, i: int)
    requires
        0 <= i < s.len(),
    ensures
        spec_count(s, s[i]) >= 1,
    decreases s.len(),
{
    lemma_spec_count_nonneg(s.drop_first(), s[i]);
    if i > 0 {
        lemma_count_at_index(s.drop_first(), i - 1);
    }
}

/// Index of the first occurrence of `v` in `s`.
pub open spec fn spec_first_pos<A>(s: Seq<A>, v: A) -> int
    decreases s.len(),
{
    if s.len() == 0 {
        0
    } else if s[0] == v {
        0
    } else {
        1 + spec_first_pos(s.drop_first(), v)
    }
}

/// The first position of a contained value carries it, and nothing
/// earlier does.
proof fn lemma_first_pos<A>(s: Seq<A>, v: A)
    requires
        spec_count(s, v) > 0,
    ensures
        0 <= spec_first_pos(s, v) < s.len(),
        s[spec_first_pos(s, v)] == v,
        forall|j: int| 0 <= j < spec_first_pos(s, v) ==> s[j] != v,
    decreases s.len(),
{
    if s.len() > 0 && s[0] != v {
        lemma_first_pos(s.drop_first(), v);
        let p = spec_first_pos(s.drop_first(), v);
        assert forall|j: int| 0 <= j < p + 1 implies s[j] != v by {
            if j > 0 {
                assert(s.drop_first()[j - 1] != v);
            }
        }
    }
}

/// A value unseen before `i` but present at `i` first occurs at `i`.
proof fn lemma_first_pos_at<A>(s: Seq<A>, i: int)
    requires
        0 <= i < s.len(),
        !spec_seen(s, i, s[i]),
    ensures
        spec_first_pos(s, s[i]) == i,
    decreases i,
{
    if i == 0 {
    } else {
        assert(s[0] != s[i]);
        assert(s.drop_first()[i - 1] == s[i]);
        assert(!spec_seen(s.drop_first(), i - 1, s.drop_first()[i - 1])) by {
            if spec_seen(s.drop_first(), i - 1, s[i]) {
                let j = choose|j: int| 0 <= j < i - 1 && s.drop_first()[j] == s[i];
                assert(s[j + 1] == s[i]);
            }
        }
        lemma_first_pos_at(s.drop_first(), i - 1);
    }
}

/// The deduplication law: every entry of the deduplicated sequence is
/// a distinct input value carrying its exact multiset count, the
/// entries stand in first-occurrence order, and every input value has
/// exactly one entry.
pub proof fn lemma_dedup_properties<A>(s: Seq<A>)
    ensures
        forall|k: int| 0 <= k < spec_dedup(s).len() ==> (#[trigger] spec_dedup(s)[k]).1
            == s.to_multiset().count(spec_dedup(s)[k].0),
        forall|k1: int, k2: int| 0 <= k1 < k2 < spec_dedup(s).len() ==> (#[trigger] spec_dedup(
            s,
        )[k1]).0 != (#[trigger] spec_dedup(s)[k2]).0,
        forall|v: A| s.contains(v) <==> exists|k: int|
            0 <= k < spec_dedup(s).len() && (#[trigger] spec_dedup(s)[k]).0 == v,
        forall|k1: int, k2: int| 0 <= k1 < k2 < spec_dedup(s).len() ==> spec_first_pos(
            s,
            (#[trigger] spec_dedup(s)[k1]).0,
        ) < spec_first_pos(s, (#[trigger] spec_dedup(s)[k2]).0),
{
    lemma_dedup_from_properties(s, 0);
    assert forall|k: int| 0 <= k < spec_dedup(s).len() implies (#[trigger] spec_dedup(s)[k]).1
        == s.to_multiset().count(spec_dedup(s)[k].0) by {
        lemma_spec_count_is_multiset_count(s, spec_dedup(s)[k].0);
    }
    assert forall|v: A| s.contains(v) implies exists|k: int|
        0 <= k < spec_dedup(s).len() && (#[trigger] spec_dedup(s)[k]).0 == v by {
        let j = choose|j: int| 0 <= j < s.len() && s[j] == v;
        lemma_count_at_index2(s, j);
        assert(spec_count(s, v) > 0);
        assert(!spec_seen(s, 0, v));
        let k0 = choose|k0: int|
            0 <= k0 < spec_dedup_from(s, 0).len() && (#[trigger] spec_dedup_from(s, 0)[k0]).0
                == v;
        assert(spec_dedup(s)[k0].0 == v);
    }
    assert forall|v: A|
        (exists|k: int| 0 <= k < spec_dedup(s).len() && (#[trigger] spec_dedup(s)[k]).0 == v)
        implies s.contains(v) by {
        let k = choose|k: int|
            0 <= k < spec_dedup(s).len() && (#[trigger] spec_dedup(s)[k]).0 == v;
        let p = spec_first_pos(s, v);
        lemma_first_pos(s, v);
        assert(s[p] == v);
    }
}

/// A value at index `j` is counted.
proof fn lemma_count_at_index2<A>(s: Seq<A>, j: int)
    requires
        0 <= j < s.len(),
    ensures
        spec_count(s, s[j]) > 0,
{
    lemma_count_at_index(s, j);
}

/// The inductive heart of the deduplication law, generalized over the
/// scan position.
proof fn lemma_dedup_from_properties<A>(s: Seq<A>, i: int)
    requires
        0 <= i <= s.len(),
    ensures
        forall|k: int| 0 <= k < spec_dedup_from(s, i).len() ==> {
            let v = (#[trigger] spec_dedup_from(s, i)[k]).0;
            &&& spec_dedup_from(s, i)[k].1 == spec_count(s, v)
            &&& !spec_seen(s, i, v)
            &&& spec_count(s, v) > 0
            &&& i <= spec_first_pos(s, v) < s.len()
        },
        forall|k1: int, k2: int| 0 <= k1 < k2 < spec_dedup_from(s, i).len() ==> spec_first_pos(
            s,
            (#[trigger] spec_dedup_from(s, i)[k1]).0,
        ) < spec_first_pos(s, (#[trigger] spec_dedup_from(s, i)[k2]).0),
        forall|v: A| (!spec_seen(s, i, v) && spec_count(s, v) > 0) ==> exists|k: int|
            0 <= k < spec_dedup_from(s, i).len() && (#[trigger] spec_dedup_from(s, i)[k]).0 == v,
    decreases s.len() - i,
{
    if i == s.len() {
        assert forall|v: A| (!spec_seen(s, i, v) && spec_count(s, v) > 0) implies exists|k: int|
            0 <= k < spec_dedup_from(s, i).len() && (#[trigger] spec_dedup_from(s, i)[k]).0
                == v by {
            lemma_first_pos(s, v);
            let p = spec_first_pos(s, v);
            assert(s[p] == v);
            assert(spec_seen(s, i, v));
        }
    } else {
        lemma_dedup_from_properties(s, i + 1);
        let d = spec_dedup_from(s, i);
        let d1 = spec_dedup_from(s, i + 1);
        if spec_seen(s, i, s[i]) {
            assert(d == d1);
            assert forall|v: A| (!spec_seen(s, i, v) && spec_count(s, v) > 0) implies exists|
                k: int,
            | 0 <= k < d.len() && (#[trigger] d[k]).0 == v by {
                assert(!spec_seen(s, i + 1, v)) by {
                    if spec_seen(s, i + 1, v) {
                        let j = choose|j: int| 0 <= j < i + 1 && s[j] == v;
                        if j == i {
                            let j2 = choose|j2: int| 0 <= j2 < i && s[j2] == s[i];
                            assert(s[j2] == v);
                        }
                    }
                }
            }
            assert forall|k: int| 0 <= k < d.len() implies {
                let v = (#[trigger] d[k]).0;
                &&& d[k].1 == spec_count(s, v)
                &&& !spec_seen(s, i, v)
                &&& spec_count(s, v) > 0
                &&& i <= spec_first_pos(s, v) < s.len()
            } by {
                assert(d[k] == d1[k]);
                let v = d[k].0;
                assert(!spec_seen(s, i, v)) by {
                    if spec_seen(s, i, v) {
                        assert(spec_seen(s, i + 1, v));
                    }
                }
            }
        } else {
            lemma_first_pos_at(s, i);
            lemma_count_at_index(s, i);
            assert(d == seq![(s[i], spec_count(s, s[i]))] + d1);
            assert forall|k: int| 0 <= k < d.len() implies {
                let v = (#[trigger] d[k]).0;
                &&& d[k].1 == spec_count(s, v)
                &&& !spec_seen(s, i, v)
                &&& spec_count(s, v) > 0
                &&& i <= spec_first_pos(s, v) < s.len()
            } by {
                if k == 0 {
                    assert(d[0] == (s[i], spec_count(s, s[i])));
                } else {
                    assert(d[k] == d1[k - 1]);
                    let v = d1[k - 1].0;
                    assert(!spec_seen(s, i, v)) by {
                        if spec_seen(s, i, v) {
                            assert(spec_seen(s, i + 1, v));
                        }
                    }
                }
            }
            assert forall|k1: int, k2: int| 0 <= k1 < k2 < d.len() implies spec_first_pos(
                s,
                (#[trigger] d[k1]).0,
            ) < spec_first_pos(s, (#[trigger] d[k2]).0) by {
                if k1 == 0 {
                    let v2 = d1[k2 - 1].0;
                    assert(d[k2] == d1[k2 - 1]);
                    assert(i + 1 <= spec_first_pos(s, v2));
                    assert(spec_first_pos(s, d[0].0) == i);
                } else {
                    assert(d[k1] == d1[k1 - 1]);
                    assert(d[k2] == d1[k2 - 1]);
                }
            }
            assert forall|v: A| (!spec_seen(s, i, v) && spec_count(s, v) > 0) implies exists|
                k: int,
            | 0 <= k < d.len() && (#[trigger] d[k]).0 == v by {
                if v == s[i] {
                    assert(d[0].0 == v);
                } else {
                    assert(!spec_seen(s, i + 1, v)) by {
                        if spec_seen(s, i + 1, v) {
                            let j = choose|j: int| 0 <= j < i + 1 && s[j] == v;
                            assert(0 <= j < i && s[j] == v);
                        }
                    }
                    let k = choose|k: int| 0 <= k < d1.len() && (#[trigger] d1[k]).0 == v;
                    assert(d[k + 1].0 == v);
                }
            }
        }
    }
}

/// The version token: the capture of the first occurrence of the
/// quoted manifest prefix, running to the next quote, scanning from
/// position `i`.
pub open spec fn spec_find_version(s: Seq<char>, i: int) -> Option<Seq<char>>
    decreases (if i < s.len() {
        s.len() - i
    } else {
        0
    }),
{
    let pat = "\"Barotrauma/"@;
    if i < 0 || i >= s.len() || i + pat.len() > s.len() {
        None
    } else if spec_match_at(s, i, pat) && spec_version_capture(s, i) is Some {
        spec_version_capture(s, i)
    } else {
        spec_find_version(s, i + 1)
    }
}

/// The capture after a prefix match at `i`: the characters up to the
/// next quote, provided there is at least one.
pub open spec fn spec_version_capture(s: Seq<char>, i: int) -> Option<Seq<char>> {
    let pat = "\"Barotrauma/"@;
    let start = i + pat.len() as int;
    match crate::text::first_index_of(s.subrange(start, s.len() as int), '"') {
        None => None,
        Some(rel) => if rel >= 1 {
            Some(s.subrange(start, start + rel))
        } else {
            None
        },
    }
}

/// Extracts the game version token from the manifest text: the first
/// quoted `Barotrauma/` entry.
pub fn parse_version(text: &str) -> (r: Result<String, Error>)
    ensures
        match r {
            Ok(v) => spec_find_version(text@, 0) == Some(v@),
            Err(e) => spec_find_version(text@, 0) is None && e == Error::MissingVersion,
        },
{
    let pat = "\"Barotrauma/";
    let pat_len = pat.unicode_len();
    let len = text.unicode_len();
    proof {
        reveal_strlit("\"Barotrauma/");
    }
    if len < pat_len {
        return Err(Error::MissingVersion);
    }
    let mut i: usize = 0;
    while i <= len - pat_len
        invariant
            pat@ == "\"Barotrauma/"@,
            pat_len == pat@.len(),
            pat_len == 12,
            pat_len <= len,
            len == text@.len(),
            spec_find_version(text@, 0) == spec_find_version(text@, i as int),
        decreases len - i,
    {
        if crate::text::match_at(text, i, pat) {
            match crate::text::find_char_from(text, i + pat_len, '"') {
                Some(k) => {
                    if k > i + pat_len {
                        let v = text.substring_char(i + pat_len, k);
                        proof {
                            assert(spec_version_capture(text@, i as int) == Some(v@));
                        }
                        return Ok(String::from_str(v));
                    }
                    proof {
                        assert(spec_version_capture(text@, i as int) is None);
                    }
                },
                None => {
                    proof {
                        assert(spec_version_capture(text@, i as int) is None);
                    }
                },
            }
        }
        i = i + 1;
    }
    Err(Error::MissingVersion)
}

} // verus!

verus! {

/// The localization table read from the `infotexts` element: each
/// child with a text body binds its tag to that text, later children
/// overriding earlier ones.
pub open spec fn spec_locale_entries(children: Seq<SpecElement>) -> Seq<(Seq<char>, Seq<char>)>
    decreases children.len(),
{
    if children.len() == 0 {
        Seq::empty()
    } else {
        let prev = spec_locale_entries(children.drop_last());
        match children.last().text {
            None => prev,
            Some(t) => crate::model::spec_loc_put(prev, children.last().tag, t),
        }
    }
}

/// The reading of a localization document.
pub open spec fn spec_parse_localization(root: SpecElement) -> Result<
    Seq<(Seq<char>, Seq<char>)>,
    Error,
> {
    match crate::node::spec_first_child(root, "infotexts"@) {
        None => Err(Error::MissingInfotexts),
        Some(info) => Ok(spec_locale_entries(info.children)),
    }
}

/// Builds the localization table from the localization document root.
pub fn parse_localization(root: &Element) -> (r: Result<crate::model::Localization, Error>)
    ensures
        crate::model::rview(r) == spec_parse_localization(root@),
{
    broadcast use crate::node::lemma_elems_view_len, crate::node::lemma_elems_view_index;

    match root.find_child("infotexts") {
        None => Err(Error::MissingInfotexts),
        Some(info) => {
            let ghost cs = crate::node::elems_view(info.children@);
            let mut loc = crate::model::Localization::new();
            let mut i: usize = 0;
            proof {
                assert(cs.subrange(0, 0) =~= Seq::<SpecElement>::empty());
            }
            while i < info.children.len()
                invariant
                    i <= info.children@.len(),
                    cs == crate::node::elems_view(info.children@),
                    cs.len() == info.children@.len(),
                    loc@ == spec_locale_entries(cs.subrange(0, i as int)),
                decreases info.children@.len() - i,
            {
                let child = &info.children[i];
                proof {
                    broadcast use crate::node::lemma_elems_view_index;

                    assert(cs.subrange(0, i as int + 1).drop_last() =~= cs.subrange(0, i as int));
                    assert(cs.subrange(0, i as int + 1).last() == cs[i as int]);
                    assert(cs[i as int] == crate::node::elem_view(info.children@[i as int]));
                }
                match &child.text {
                    Some(t) => {
                        loc.put(child.tag.clone(), t.clone());
                    },
                    None => {},
                }
                i = i + 1;
            }
            proof {
                assert(cs.subrange(0, cs.len() as int) =~= cs);
            }
            Ok(loc)
        },
    }
}

/// The inference that decides whether an item is sold at a location:
/// a declared minimum stock or a truthy sold-everywhere declaration
/// forces sold (conflicting with an explicit refusal), an explicit
/// flag is otherwise kept, and silence on every channel means sold.
pub open spec fn spec_infer_sold(
    has_min: bool,
    sold_everywhere: Option<bool>,
    explicit_sold: Option<bool>,
) -> Result<bool, Error> {
    if has_min || sold_everywhere == Some(true) {
        if explicit_sold == Some(false) {
            Err(Error::SoldConflict)
        } else {
            Ok(true)
        }
    } else {
        match explicit_sold {
            Some(b) => Ok(b),
            None => if sold_everywhere is None {
                Ok(true)
            } else {
                Err(Error::SoldConflict)
            },
        }
    }
}

/// Exec counterpart of [`spec_infer_sold`].
pub fn infer_sold(
    has_min: bool,
    sold_everywhere: Option<bool>,
    explicit_sold: Option<bool>,
) -> (r: Result<bool, Error>)
    ensures
        r == spec_infer_sold(has_min, sold_everywhere, explicit_sold),
{
    if has_min || sold_everywhere == Some(true) {
        if explicit_sold == Some(false) {
            Err(Error::SoldConflict)
        } else {
            Ok(true)
        }
    } else {
        match explicit_sold {
            Some(b) => Ok(b),
            None => if sold_everywhere.is_none() {
                Ok(true)
            } else {
                Err(Error::SoldConflict)
            },
        }
    }
}

/// The sold-inference law: a declared per-location minimum stock with
/// no explicit flag means sold; a truthy sold-everywhere declaration
/// with no per-location data means sold; and with no signal at all the
/// item is sold by default.
pub proof fn lemma_sold_inference(sold_everywhere: Option<bool>)
    ensures
        spec_infer_sold(true, sold_everywhere, None) == Ok::<bool, Error>(true),
        spec_infer_sold(false, Some(true), None) == Ok::<bool, Error>(true),
        spec_infer_sold(false, None, None) == Ok::<bool, Error>(true),
{
}

/// The canonical multiplier used when a price child declares none.
pub open spec fn spec_default_multiplier() -> crate::decimal::Decimal {
    crate::decimal::Decimal { neg: false, mant: 1, scale: 0 }
}

/// The reading of the optional sold-everywhere declaration.
pub open spec fn spec_sold_everywhere(e: SpecElement) -> Result<Option<bool>, Error> {
    match crate::node::spec_attr(e, "soldeverywhere"@) {
        None => Ok(None),
        Some(s) => match spec_parse_bool(s) {
            None => Err(Error::InvalidBool),
            Some(b) => Ok(Some(b)),
        },
    }
}

/// The reading of one `Price` child into a price entry.
pub open spec fn spec_price_entry(
    child: SpecElement,
    sold_everywhere: Option<bool>,
) -> Result<crate::model::SpecPriceEntry, Error> {
    let has_min = crate::node::spec_attr(child, "minavailable"@) is Some;
    let sold0 = match crate::node::spec_attr(child, "sold"@) {
        None => Ok(None),
        Some(s) => match spec_parse_bool(s) {
            None => Err(Error::InvalidBool),
            Some(b) => Ok(Some(b)),
        },
    };
    match sold0 {
        Err(e) => Err(e),
        Ok(sold0) => match spec_infer_sold(has_min, sold_everywhere, sold0) {
            Err(e) => Err(e),
            Ok(sold) => {
                let mult = match crate::node::spec_attr(child, "multiplier"@) {
                    None => Ok(spec_default_multiplier()),
                    Some(ms) => match crate::decimal::spec_parse_decimal(ms) {
                        None => Err(Error::InvalidDecimal),
                        Some(d) => Ok(d),
                    },
                };
                match mult {
                    Err(e) => Err(e),
                    Ok(multiplier) => match crate::node::spec_attr(child, "locationtype"@) {
                        None => Err(Error::MissingLocationType),
                        Some(location) => Ok(
                            crate::model::SpecPriceEntry { location, multiplier, sold },
                        ),
                    },
                }
            },
        },
    }
}

/// The entry list with one entry recorded: an entry for the same
/// location is replaced in place, a new location appended.
pub open spec fn spec_price_put(
    s: Seq<crate::model::SpecPriceEntry>,
    e: crate::model::SpecPriceEntry,
) -> Seq<crate::model::SpecPriceEntry>
    decreases s.len(),
{
    if s.len() == 0 {
        seq![e]
    } else if s[0].location == e.location {
        seq![e] + s.drop_first()
    } else {
        seq![s[0]] + spec_price_put(s.drop_first(), e)
    }
}

/// The price entries read from an element's `Price` children, in
/// document order, later duplicates replacing earlier ones.
pub open spec fn spec_price_entries(
    children: Seq<SpecElement>,
    sold_everywhere: Option<bool>,
) -> Result<Seq<crate::model::SpecPriceEntry>, Error>
    decreases children.len(),
{
    if children.len() == 0 {
        Ok(Seq::empty())
    } else {
        match spec_price_entries(children.drop_last(), sold_everywhere) {
            Err(e) => Err(e),
            Ok(prev) => if children.last().tag != "Price"@ {
                Ok(prev)
            } else {
                match spec_price_entry(children.last(), sold_everywhere) {
                    Err(e) => Err(e),
                    Ok(en) => Ok(spec_price_put(prev, en)),
                }
            },
        }
    }
}

/// The reading of an item's price block.
pub open spec fn spec_parse_prices(e: SpecElement) -> Result<crate::model::SpecPrices, Error> {
    match crate::node::spec_attr(e, "baseprice"@) {
        None => Err(Error::MissingBasePrice),
        Some(bs) => match crate::text::spec_parse_i32(bs) {
            None => Err(Error::InvalidInt),
            Some(bp) => match spec_sold_everywhere(e) {
                Err(e2) => Err(e2),
                Ok(se) => match spec_price_entries(e.children, se) {
                    Err(e2) => Err(e2),
                    Ok(locs) => Ok(
                        crate::model::SpecPrices {
                            base_price: bp,
                            sold_everywhere: se,
                            locations: locs,
                        },
                    ),
                },
            },
        },
    }
}

/// Replacing or appending a canonical entry keeps every entry
/// canonical.
proof fn lemma_price_put_wf(s: Seq<crate::model::SpecPriceEntry>, e: crate::model::SpecPriceEntry)
    requires
        forall|i: int| 0 <= i < s.len() ==> (#[trigger] s[i]).multiplier.wf(),
        e.multiplier.wf(),
    ensures
        forall|i: int| 0 <= i < spec_price_put(s, e).len() ==> (#[trigger] spec_price_put(
            s,
            e,
        )[i]).multiplier.wf(),
    decreases s.len(),
{
    let d = spec_price_put(s, e);
    if s.len() == 0 {
        assert(forall|i: int| 0 <= i < d.len() ==> (#[trigger] d[i]) == e);
    } else if s[0].location == e.location {
        assert forall|i: int| 0 <= i < d.len() implies (#[trigger] d[i]).multiplier.wf() by {
            if i > 0 {
                assert(d[i] == s.drop_first()[i - 1]);
                assert(s.drop_first()[i - 1] == s[i]);
            }
        }
    } else {
        assert(forall|i: int| 0 <= i < s.drop_first().len() ==> (#[trigger] s.drop_first()[i])
            == s[i + 1]);
        lemma_price_put_wf(s.drop_first(), e);
        assert forall|i: int| 0 <= i < d.len() implies (#[trigger] d[i]).multiplier.wf() by {
            if i > 0 {
                assert(d[i] == spec_price_put(s.drop_first(), e)[i - 1]);
            } else {
                assert(d[0] == s[0]);
            }
        }
    }
}

/// A failure while reading a prefix of the children decides the
/// whole reading.
proof fn lemma_price_entries_err(
    children: Seq<SpecElement>,
    n: int,
    sold_everywhere: Option<bool>,
)
    requires
        0 <= n <= children.len(),
        spec_price_entries(children.subrange(0, n), sold_everywhere) is Err,
    ensures
        spec_price_entries(children, sold_everywhere) == spec_price_entries(
            children.subrange(0, n),
            sold_everywhere,
        ),
    decreases children.len() - n,
{
    if n == children.len() {
        assert(children.subrange(0, n) =~= children);
    } else {
        assert(children.subrange(0, n + 1).drop_last() =~= children.subrange(0, n));
        lemma_price_entries_err(children, n + 1, sold_everywhere);
    }
}

/// Records a price entry, replacing any earlier entry for the same
/// location type.
fn push_price(locations: &mut Vec<crate::model::PriceEntry>, e: crate::model::PriceEntry)
    ensures
        final(locations).deep_view() == spec_price_put(old(locations).deep_view(), e@),
{
    let mut i: usize = 0;
    let n = locations.len();
    proof {
        assert(locations.deep_view().subrange(0, n as int) =~= locations.deep_view());
        assert(locations.deep_view().subrange(0, 0) + spec_price_put(
            locations.deep_view().subrange(0, n as int),
            e@,
        ) =~= spec_price_put(locations.deep_view(), e@));
    }
    while i < n
        invariant
            i <= n,
            n == locations@.len(),
            locations == old(locations),
            forall|j: int| 0 <= j < i ==> (#[trigger] locations.deep_view()[j]).location
                != e@.location,
            spec_price_put(old(locations).deep_view(), e@) == locations.deep_view().subrange(
                0,
                i as int,
            ) + spec_price_put(locations.deep_view().subrange(i as int, n as int), e@),
        decreases n - i,
    {
        let ghost suffix = locations.deep_view().subrange(i as int, n as int);
        proof {
            assert(suffix[0] == locations.deep_view()[i as int]);
            assert(suffix.drop_first() =~= locations.deep_view().subrange(
                i as int + 1,
                n as int,
            ));
        }
        if str_eq(locations[i].location.as_str(), e.location.as_str()) {
            let ghost before = locations.deep_view();
            locations.set(i, e);
            proof {
                assert(locations.deep_view() =~= before.update(i as int, e@));
                assert(before.subrange(0, i as int) + (seq![e@] + before.subrange(
                    i as int + 1,
                    n as int,
                )) =~= locations.deep_view());
            }
            return ;
        }
        proof {
            assert(spec_price_put(suffix, e@) == seq![suffix[0]] + spec_price_put(
                suffix.drop_first(),
                e@,
            ));
            assert(locations.deep_view().subrange(0, i as int) + seq![
                locations.deep_view()[i as int],
            ] =~= locations.deep_view().subrange(0, i as int + 1));
            assert(locations.deep_view().subrange(0, i as int) + (seq![suffix[0]]
                + spec_price_put(suffix.drop_first(), e@)) =~= locations.deep_view().subrange(
                0,
                i as int + 1,
            ) + spec_price_put(
                locations.deep_view().subrange(i as int + 1, n as int),
                e@,
            ));
        }
        i = i + 1;
    }
    let ghost before = locations.deep_view();
    locations.push(e);
    proof {
        assert(before.subrange(i as int, n as int) =~= Seq::<crate::model::SpecPriceEntry>::empty());
        assert(before.subrange(0, i as int) =~= before);
        assert(locations.deep_view() =~= before.push(e@));
        assert(before + seq![e@] =~= before.push(e@));
    }
}

/// Reads one `Price` child into a price entry, applying the
/// sold/unsold inference.
fn parse_price_entry(child: &Element, sold_everywhere: Option<bool>) -> (r: Result<
    crate::model::PriceEntry,
    Error,
>)
    ensures
        crate::model::rview(r) == spec_price_entry(child@, sold_everywhere),
        r matches Ok(e) ==> e@.multiplier.wf(),
{
    let has_min = child.attr("minavailable").is_some();
    let explicit_sold = match child.attr("sold") {
        None => None,
        Some(s) => match parse_bool(s.as_str()) {
            None => {
                return Err(Error::InvalidBool);
            },
            Some(b) => Some(b),
        },
    };
    let sold = match infer_sold(has_min, sold_everywhere, explicit_sold) {
        Err(e) => {
            return Err(e);
        },
        Ok(b) => b,
    };
    let multiplier = match child.attr("multiplier") {
        None => crate::decimal::Decimal { neg: false, mant: 1, scale: 0 },
        Some(ms) => match crate::decimal::parse_decimal(ms.as_str()) {
            None => {
                return Err(Error::InvalidDecimal);
            },
            Some(d) => d,
        },
    };
    let location = match child.attr("locationtype") {
        None => {
            return Err(Error::MissingLocationType);
        },
        Some(l) => l.clone(),
    };
    Ok(crate::model::PriceEntry { location, multiplier, sold })
}

/// Reads an item's price block: the base price, the sold-everywhere
/// declaration, and one inferred entry per `Price` child.
pub fn parse_prices(elem: &Element) -> (r: Result<crate::model::Prices, Error>)
    ensures
        crate::model::rview(r) == spec_parse_prices(elem@),
        r matches Ok(p) ==> p@.wf(),
{
    let base_price = match elem.attr("baseprice") {
        None => {
            return Err(Error::MissingBasePrice);
        },
        Some(bs) => match crate::text::parse_i32(bs.as_str()) {
            None => {
                return Err(Error::InvalidInt);
            },
            Some(bp) => bp,
        },
    };
    let sold_everywhere = match elem.attr("soldeverywhere") {
        None => None,
        Some(s) => match parse_bool(s.as_str()) {
            None => {
                return Err(Error::InvalidBool);
            },
            Some(b) => Some(b),
        },
    };
    let ghost cs = crate::node::elems_view(elem.children@);
    let mut locations: Vec<crate::model::PriceEntry> = Vec::new();
    let mut i: usize = 0;
    proof {
        crate::node::lemma_elems_view_len(elem.children@);
        assert(cs.subrange(0, 0) =~= Seq::<SpecElement>::empty());
        assert(locations.deep_view() =~= Seq::<crate::model::SpecPriceEntry>::empty());
    }
    while i < elem.children.len()
        invariant
            i <= elem.children@.len(),
            cs == crate::node::elems_view(elem.children@),
            cs.len() == elem.children@.len(),
            sold_everywhere == (match spec_sold_everywhere(elem@) {
                Ok(se) => se,
                Err(_) => None,
            }),
            spec_sold_everywhere(elem@) is Ok,
            crate::node::spec_attr(elem@, "baseprice"@) is Some,
            crate::text::spec_parse_i32(crate::node::spec_attr(elem@, "baseprice"@)->0) == Some(
                base_price,
            ),
            spec_price_entries(cs.subrange(0, i as int), sold_everywhere) == Ok::<
                Seq<crate::model::SpecPriceEntry>,
                Error,
            >(locations.deep_view()),
            forall|j: int| 0 <= j < locations.deep_view().len() ==> (
            #[trigger] locations.deep_view()[j]).multiplier.wf(),
        decreases elem.children@.len() - i,
    {
        let child = &elem.children[i];
        proof {
            crate::node::lemma_elems_view_index(elem.children@, i as int);
            assert(cs.subrange(0, i as int + 1).drop_last() =~= cs.subrange(0, i as int));
            assert(cs.subrange(0, i as int + 1).last() == cs[i as int]);
            assert(cs[i as int] == crate::node::elem_view(elem.children@[i as int]));
        }
        if str_eq(child.tag.as_str(), "Price") {
            match parse_price_entry(child, sold_everywhere) {
                Err(e) => {
                    proof {
                        assert(spec_price_entries(cs.subrange(0, i as int + 1), sold_everywhere)
                            == Err::<Seq<crate::model::SpecPriceEntry>, Error>(e));
                        lemma_price_entries_err(cs, i as int + 1, sold_everywhere);
                    }
                    return Err(e);
                },
                Ok(entry) => {
                    proof {
                        lemma_price_put_wf(locations.deep_view(), entry@);
                    }
                    push_price(&mut locations, entry);
                },
            }
        }
        i = i + 1;
    }
    proof {
        assert(cs.subrange(0, cs.len() as int) =~= cs);
    }
    let r = crate::model::Prices { base_price, sold_everywhere, locations };
    Ok(r)
}

} // verus!

verus! {

/// The raw material references of a fabrication recipe, in document
/// order: each material child names exactly one of a concrete
/// identifier or an abstract tag; naming neither, or both, is a
/// failure.
pub open spec fn spec_fab_mats(children: Seq<SpecElement>) -> Result<
    Seq<crate::model::SpecRequiredItem>,
    Error,
>
    decreases children.len(),
{
    if children.len() == 0 {
        Ok(Seq::empty())
    } else {
        match spec_fab_mats(children.drop_last()) {
            Err(e) => Err(e),
            Ok(prev) => {
                let c = children.last();
                if c.tag == "RequiredItem"@ || c.tag == "Item"@ {
                    match (
                        crate::node::spec_attr(c, "identifier"@),
                        crate::node::spec_attr(c, "tag"@),
                    ) {
                        (Some(_), Some(_)) => Err(Error::AmbiguousMaterialKey),
                        (Some(id), None) => Ok(prev.push(crate::model::SpecRequiredItem::Id(id))),
                        (None, Some(t)) => Ok(prev.push(crate::model::SpecRequiredItem::Tag(t))),
                        (None, None) => Err(Error::MaterialWithoutKey),
                    }
                } else {
                    Ok(prev)
                }
            },
        }
    }
}

/// A failure while reading a prefix of the material children decides
/// the whole reading.
proof fn lemma_fab_mats_err(children: Seq<SpecElement>, n: int)
    requires
        0 <= n <= children.len(),
        spec_fab_mats(children.subrange(0, n)) is Err,
    ensures
        spec_fab_mats(children) == spec_fab_mats(children.subrange(0, n)),
    decreases children.len() - n,
{
    if n == children.len() {
        assert(children.subrange(0, n) =~= children);
    } else {
        assert(children.subrange(0, n + 1).drop_last() =~= children.subrange(0, n));
        lemma_fab_mats_err(children, n + 1);
    }
}

/// The skill requirements of a fabrication recipe, in document order.
pub open spec fn spec_fab_skills(children: Seq<SpecElement>) -> Result<
    Seq<(Seq<char>, i32)>,
    Error,
>
    decreases children.len(),
{
    if children.len() == 0 {
        Ok(Seq::empty())
    } else {
        match spec_fab_skills(children.drop_last()) {
            Err(e) => Err(e),
            Ok(prev) => {
                let c = children.last();
                if c.tag == "RequiredSkill"@ {
                    match crate::node::spec_attr(c, "identifier"@) {
                        None => Err(Error::MissingSkillIdentifier),
                        Some(id) => match crate::node::spec_attr(c, "level"@) {
                            None => Err(Error::MissingSkillLevel),
                            Some(ls) => match crate::text::spec_parse_i32(ls) {
                                None => Err(Error::InvalidInt),
                                Some(level) => Ok(prev.push((id, level))),
                            },
                        },
                    }
                } else {
                    Ok(prev)
                }
            },
        }
    }
}

/// A failure while reading a prefix of the skill children decides the
/// whole reading.
proof fn lemma_fab_skills_err(children: Seq<SpecElement>, n: int)
    requires
        0 <= n <= children.len(),
        spec_fab_skills(children.subrange(0, n)) is Err,
    ensures
        spec_fab_skills(children) == spec_fab_skills(children.subrange(0, n)),
    decreases children.len() - n,
{
    if n == children.len() {
        assert(children.subrange(0, n) =~= children);
    } else {
        assert(children.subrange(0, n + 1).drop_last() =~= children.subrange(0, n));
        lemma_fab_skills_err(children, n + 1);
    }
}

/// Deduplicated materials with their repetition counts, as the
/// catalog stores them.
pub open spec fn spec_dedup_counts<A>(s: Seq<A>) -> Seq<(A, i32)> {
    spec_dedup(s).map_values(|p: (A, int)| (p.0, p.1 as i32))
}

/// The reading of a fabrication recipe element.
pub open spec fn spec_parse_fabricate(e: SpecElement) -> Result<
    crate::model::SpecFabricate,
    Error,
> {
    match spec_fab_mats(e.children) {
        Err(e2) => Err(e2),
        Ok(raw) => if raw.len() > i32::MAX {
            Err(Error::TooManyMaterials)
        } else {
            let mats = spec_dedup_counts(raw);
            match spec_fab_skills(e.children) {
                Err(e2) => Err(e2),
                Ok(skills) => {
                    let ts = match crate::node::spec_attr(e, "requiredtime"@) {
                        None => "0"@,
                        Some(s) => s,
                    };
                    match crate::text::spec_parse_i32(ts) {
                        None => Err(Error::InvalidInt),
                        Some(time) => {
                            let amounts = match crate::node::spec_attr(e, "amount"@) {
                                None => "1"@,
                                Some(s) => s,
                            };
                            match crate::text::spec_parse_i32(amounts) {
                                None => Err(Error::InvalidInt),
                                Some(out_amount) => match crate::node::spec_attr(
                                    e,
                                    "suitablefabricators"@,
                                ) {
                                    None => Err(Error::MissingFabricator),
                                    Some(fabricator) => Ok(
                                        crate::model::SpecFabricate {
                                            out_amount,
                                            skills,
                                            time,
                                            mats,
                                            fabricator,
                                        },
                                    ),
                                },
                            }
                        },
                    }
                },
            }
        },
    }
}

/// Reads a fabrication recipe: its deduplicated material list, its
/// skill requirements, its timings and its fabricator station.
pub fn parse_fabricate(elem: &Element) -> (r: Result<crate::model::Fabricate, Error>)
    ensures
        crate::model::rview(r) == spec_parse_fabricate(elem@),
{
    let ghost cs = crate::node::elems_view(elem.children@);
    proof {
        crate::node::lemma_elems_view_len(elem.children@);
        assert(cs.subrange(0, 0) =~= Seq::<SpecElement>::empty());
    }
    let mut raw: Vec<crate::model::RequiredItem> = Vec::new();
    let mut i: usize = 0;
    proof {
        assert(raw.deep_view() =~= Seq::<crate::model::SpecRequiredItem>::empty());
    }
    while i < elem.children.len()
        invariant
            i <= elem.children@.len(),
            cs == crate::node::elems_view(elem.children@),
            cs.len() == elem.children@.len(),
            raw@.len() <= i,
            spec_fab_mats(cs.subrange(0, i as int)) == Ok::<
                Seq<crate::model::SpecRequiredItem>,
                Error,
            >(raw.deep_view()),
        decreases elem.children@.len() - i,
    {
        let child = &elem.children[i];
        proof {
            crate::node::lemma_elems_view_index(elem.children@, i as int);
            assert(cs.subrange(0, i as int + 1).drop_last() =~= cs.subrange(0, i as int));
            assert(cs.subrange(0, i as int + 1).last() == cs[i as int]);
        }
        if str_eq(child.tag.as_str(), "RequiredItem") || str_eq(child.tag.as_str(), "Item") {
            let ghost dv0 = raw.deep_view();
            match (child.attr("identifier"), child.attr("tag")) {
                (Some(_), Some(_)) => {
                    proof {
                        lemma_fab_mats_err(cs, i as int + 1);
                    }
                    return Err(Error::AmbiguousMaterialKey);
                },
                (Some(id), None) => {
                    raw.push(crate::model::RequiredItem::Id(id.clone()));
                    proof {
                        assert(raw.deep_view() =~= dv0.push(
                            crate::model::SpecRequiredItem::Id(id@),
                        ));
                    }
                },
                (None, Some(t)) => {
                    raw.push(crate::model::RequiredItem::Tag(t.clone()));
                    proof {
                        assert(raw.deep_view() =~= dv0.push(
                            crate::model::SpecRequiredItem::Tag(t@),
                        ));
                    }
                },
                (None, None) => {
                    proof {
                        lemma_fab_mats_err(cs, i as int + 1);
                    }
                    return Err(Error::MaterialWithoutKey);
                },
            }
        }
        i = i + 1;
    }
    proof {
        assert(cs.subrange(0, cs.len() as int) =~= cs);
    }
    if raw.len() > i32::MAX as usize {
        return Err(Error::TooManyMaterials);
    }
    let raw_slice = raw.as_slice();
    let mats = dedup_things(raw_slice);
    proof {
        assert(raw_slice.deep_view() =~= raw.deep_view());
        assert(mats.deep_view() =~= spec_dedup_counts(raw.deep_view())) by {
            let a = mats.deep_view();
            let b = spec_dedup_counts(raw.deep_view());
            assert(counts_to_int(a).len() == a.len());
            assert forall|k: int| 0 <= k < a.len() implies a[k] == b[k] by {
                assert(counts_to_int(a)[k] == (a[k].0, a[k].1 as int));
                assert(counts_to_int(a)[k] == spec_dedup(raw.deep_view())[k]);
                assert(b[k] == (
                    spec_dedup(raw.deep_view())[k].0,
                    spec_dedup(raw.deep_view())[k].1 as i32,
                ));
            }
        }
    }
    let mut skills: Vec<(String, i32)> = Vec::new();
    let mut i: usize = 0;
    proof {
        assert(skills.deep_view() =~= Seq::<(Seq<char>, i32)>::empty());
        assert(cs.subrange(0, 0) =~= Seq::<SpecElement>::empty());
    }
    while i < elem.children.len()
        invariant
            i <= elem.children@.len(),
            cs == crate::node::elems_view(elem.children@),
            cs.len() == elem.children@.len(),
            spec_fab_mats(cs) is Ok,
            spec_fab_mats(cs)->Ok_0.len() <= i32::MAX,
            mats.deep_view() == spec_dedup_counts(spec_fab_mats(cs)->Ok_0),
            spec_fab_skills(cs.subrange(0, i as int)) == Ok::<Seq<(Seq<char>, i32)>, Error>(
                skills.deep_view(),
            ),
        decreases elem.children@.len() - i,
    {
        let child = &elem.children[i];
        proof {
            crate::node::lemma_elems_view_index(elem.children@, i as int);
            assert(cs.subrange(0, i as int + 1).drop_last() =~= cs.subrange(0, i as int));
            assert(cs.subrange(0, i as int + 1).last() == cs[i as int]);
        }
        if str_eq(child.tag.as_str(), "RequiredSkill") {
            let ghost dv0 = skills.deep_view();
            match child.attr("identifier") {
                None => {
                    proof {
                        lemma_fab_skills_err(cs, i as int + 1);
                    }
                    return Err(Error::MissingSkillIdentifier);
                },
                Some(id) => match child.attr("level") {
                    None => {
                        proof {
                            lemma_fab_skills_err(cs, i as int + 1);
                        }
                        return Err(Error::MissingSkillLevel);
                    },
                    Some(ls) => match crate::text::parse_i32(ls.as_str()) {
                        None => {
                            proof {
                                lemma_fab_skills_err(cs, i as int + 1);
                            }
                            return Err(Error::InvalidInt);
                        },
                        Some(level) => {
                            skills.push((id.clone(), level));
                            proof {
                                assert(skills.deep_view() =~= dv0.push((id@, level)));
                            }
                        },
                    },
                },
            }
        }
        i = i + 1;
    }
    proof {
        assert(cs.subrange(0, cs.len() as int) =~= cs);
    }
    let time = match elem.attr("requiredtime") {
        None => match crate::text::parse_i32("0") {
            Some(t) => t,
            None => {
                proof {
                    reveal_strlit("0");
                    assert(crate::text::spec_parse_i32("0"@) == Some(0i32));
                }
                0
            },
        },
        Some(s) => match crate::text::parse_i32(s.as_str()) {
            None => {
                return Err(Error::InvalidInt);
            },
            Some(t) => t,
        },
    };
    let out_amount = match elem.attr("amount") {
        None => match crate::text::parse_i32("1") {
            Some(a) => a,
            None => {
                proof {
                    reveal_strlit("1");
                    assert(crate::text::spec_parse_i32("1"@) == Some(1i32));
                }
                1
            },
        },
        Some(s) => match crate::text::parse_i32(s.as_str()) {
            None => {
                return Err(Error::InvalidInt);
            },
            Some(a) => a,
        },
    };
    let fabricator = match elem.attr("suitablefabricators") {
        None => {
            return Err(Error::MissingFabricator);
        },
        Some(f) => f.clone(),
    };
    let r = crate::model::Fabricate { out_amount, skills, time, mats, fabricator };
    proof {
        assert(r@ =~= spec_parse_fabricate(elem@)->Ok_0);
    }
    Ok(r)
}

} // verus!

verus! {

/// The material identifiers of a deconstruction recipe, in document
/// order; every material child must name a concrete identifier.
pub open spec fn spec_decon_mats(children: Seq<SpecElement>) -> Result<Seq<Seq<char>>, Error>
    decreases children.len(),
{
    if children.len() == 0 {
        Ok(Seq::empty())
    } else {
        match spec_decon_mats(children.drop_last()) {
            Err(e) => Err(e),
            Ok(prev) => {
                let c = children.last();
                if c.tag == "Item"@ || c.tag == "RequiredItem"@ {
                    match crate::node::spec_attr(c, "identifier"@) {
                        Some(id) => Ok(prev.push(id)),
                        None => Err(Error::MaterialWithoutKey),
                    }
                } else {
                    Ok(prev)
                }
            },
        }
    }
}

/// A failure while reading a prefix of the material children decides
/// the whole reading.
proof fn lemma_decon_mats_err(children: Seq<SpecElement>, n: int)
    requires
        0 <= n <= children.len(),
        spec_decon_mats(children.subrange(0, n)) is Err,
    ensures
        spec_decon_mats(children) == spec_decon_mats(children.subrange(0, n)),
    decreases children.len() - n,
{
    if n == children.len() {
        assert(children.subrange(0, n) =~= children);
    } else {
        assert(children.subrange(0, n + 1).drop_last() =~= children.subrange(0, n));
        lemma_decon_mats_err(children, n + 1);
    }
}

/// The order of deconstruction rows: by material identifier, counts
/// breaking ties.
pub open spec fn spec_mat_id_le(a: (Seq<char>, i32), b: (Seq<char>, i32)) -> bool {
    if a.0 == b.0 {
        a.1 <= b.1
    } else {
        crate::text::lex_le(a.0, b.0)
    }
}

/// Exec counterpart of [`spec_mat_id_le`].
pub fn mat_id_le(a: &(String, i32), b: &(String, i32)) -> (r: bool)
    ensures
        r == spec_mat_id_le(a.deep_view(), b.deep_view()),
{
    if str_eq(a.0.as_str(), b.0.as_str()) {
        a.1 <= b.1
    } else {
        crate::text::str_le(a.0.as_str(), b.0.as_str())
    }
}

/// Stable insertion into a sorted material list.
pub open spec fn spec_insert_mat_id(s: Seq<(Seq<char>, i32)>, x: (Seq<char>, i32)) -> Seq<
    (Seq<char>, i32),
>
    decreases s.len(),
{
    if s.len() == 0 {
        seq![x]
    } else if spec_mat_id_le(s[0], x) {
        seq![s[0]] + spec_insert_mat_id(s.drop_first(), x)
    } else {
        seq![x] + s
    }
}

/// Insertion sort of a material list, stable on equal keys.
pub open spec fn spec_sort_mat_ids(s: Seq<(Seq<char>, i32)>) -> Seq<(Seq<char>, i32)>
    decreases s.len(),
{
    if s.len() == 0 {
        Seq::empty()
    } else {
        spec_insert_mat_id(spec_sort_mat_ids(s.drop_last()), s.last())
    }
}

/// Inserting before the first strictly larger element realizes
/// [`spec_insert_mat_id`].
proof fn lemma_insert_mat_at(s: Seq<(Seq<char>, i32)>, x: (Seq<char>, i32), p: int)
    requires
        0 <= p <= s.len(),
        forall|j: int| 0 <= j < p ==> spec_mat_id_le(#[trigger] s[j], x),
        p < s.len() ==> !spec_mat_id_le(s[p], x),
    ensures
        spec_insert_mat_id(s, x) == s.subrange(0, p) + seq![x] + s.subrange(p, s.len() as int),
    decreases s.len(),
{
    if p == 0 {
        if s.len() == 0 {
            assert(spec_insert_mat_id(s, x) =~= s.subrange(0, 0) + seq![x] + s.subrange(
                0,
                s.len() as int,
            ));
        } else {
            assert(s.subrange(0, s.len() as int) =~= s);
            assert(spec_insert_mat_id(s, x) =~= s.subrange(0, 0) + seq![x] + s.subrange(
                0,
                s.len() as int,
            ));
        }
    } else {
        assert(spec_mat_id_le(s[0], x));
        assert(forall|j: int| 0 <= j < p - 1 ==> #[trigger] s.drop_first()[j] == s[j + 1]);
        lemma_insert_mat_at(s.drop_first(), x, p - 1);
        assert(s.drop_first().subrange(0, p - 1) =~= s.subrange(1, p));
        assert(s.drop_first().subrange(p - 1, s.drop_first().len() as int) =~= s.subrange(
            p,
            s.len() as int,
        ));
        assert(seq![s[0]] + (s.subrange(1, p) + seq![x] + s.subrange(p, s.len() as int))
            =~= s.subrange(0, p) + seq![x] + s.subrange(p, s.len() as int));
    }
}

/// Inserts a material into a list sorted by identifier.
fn insert_mat_id(sorted: &mut Vec<(String, i32)>, x: (String, i32))
    ensures
        final(sorted).deep_view() == spec_insert_mat_id(old(sorted).deep_view(), x.deep_view()),
{
    let ghost dv0 = sorted.deep_view();
    let ghost xv = x.deep_view();
    let n = sorted.len();
    let mut pos: usize = 0;
    while pos < n && mat_id_le(&sorted[pos], &x)
        invariant
            pos <= n,
            n == sorted@.len(),
            sorted == old(sorted),
            dv0 == sorted.deep_view(),
            xv == x.deep_view(),
            forall|j: int| 0 <= j < pos ==> spec_mat_id_le(#[trigger] dv0[j], xv),
        decreases n - pos,
    {
        pos = pos + 1;
    }
    proof {
        lemma_insert_mat_at(dv0, xv, pos as int);
    }
    sorted.insert(pos, x);
    proof {
        assert(sorted.deep_view() =~= dv0.subrange(0, pos as int) + seq![xv] + dv0.subrange(
            pos as int,
            n as int,
        ));
    }
}

/// Sorts a deduplicated material list by identifier.
pub(crate) fn sort_mat_ids(v: Vec<(String, i32)>) -> (r: Vec<(String, i32)>)
    ensures
        r.deep_view() == spec_sort_mat_ids(v.deep_view()),
{
    let ghost dv = v.deep_view();
    let mut out: Vec<(String, i32)> = Vec::new();
    let mut i: usize = 0;
    proof {
        assert(dv.subrange(0, 0) =~= Seq::<(Seq<char>, i32)>::empty());
        assert(out.deep_view() =~= Seq::<(Seq<char>, i32)>::empty());
    }
    while i < v.len()
        invariant
            i <= v@.len(),
            dv == v.deep_view(),
            dv.len() == v@.len(),
            out.deep_view() == spec_sort_mat_ids(dv.subrange(0, i as int)),
        decreases v@.len() - i,
    {
        let x = (v[i].0.clone(), v[i].1);
        proof {
            assert(x.deep_view() == dv[i as int]);
            assert(dv.subrange(0, i as int + 1).drop_last() =~= dv.subrange(0, i as int));
            assert(dv.subrange(0, i as int + 1).last() == dv[i as int]);
        }
        insert_mat_id(&mut out, x);
        i = i + 1;
    }
    proof {
        assert(dv.subrange(0, dv.len() as int) =~= dv);
    }
    out
}

/// The reading of a deconstruction recipe element: materials
/// deduplicated and ordered by identifier for output stability.
pub open spec fn spec_parse_deconstruct(e: SpecElement) -> Result<
    crate::model::SpecDeconstruct,
    Error,
> {
    match spec_decon_mats(e.children) {
        Err(e2) => Err(e2),
        Ok(raw) => match crate::node::spec_attr(e, "time"@) {
            None => Err(Error::MissingDeconstructTime),
            Some(ts) => match crate::text::spec_parse_i32(ts) {
                None => Err(Error::InvalidInt),
                Some(time) => if raw.len() > i32::MAX {
                    Err(Error::TooManyMaterials)
                } else {
                    Ok(
                        crate::model::SpecDeconstruct {
                            time,
                            mats: spec_sort_mat_ids(spec_dedup_counts(raw)),
                        },
                    )
                },
            },
        },
    }
}

/// Reads a deconstruction recipe.
pub fn parse_deconstruct(elem: &Element) -> (r: Result<crate::model::Deconstruct, Error>)
    ensures
        crate::model::rview(r) == spec_parse_deconstruct(elem@),
{
    let ghost cs = crate::node::elems_view(elem.children@);
    proof {
        crate::node::lemma_elems_view_len(elem.children@);
        assert(cs.subrange(0, 0) =~= Seq::<SpecElement>::empty());
    }
    let mut raw: Vec<String> = Vec::new();
    let mut i: usize = 0;
    proof {
        assert(raw.deep_view() =~= Seq::<Seq<char>>::empty());
    }
    while i < elem.children.len()
        invariant
            i <= elem.children@.len(),
            cs == crate::node::elems_view(elem.children@),
            cs.len() == elem.children@.len(),
            raw@.len() <= i,
            spec_decon_mats(cs.subrange(0, i as int)) == Ok::<Seq<Seq<char>>, Error>(
                raw.deep_view(),
            ),
        decreases elem.children@.len() - i,
    {
        let child = &elem.children[i];
        proof {
            crate::node::lemma_elems_view_index(elem.children@, i as int);
            assert(cs.subrange(0, i as int + 1).drop_last() =~= cs.subrange(0, i as int));
            assert(cs.subrange(0, i as int + 1).last() == cs[i as int]);
        }
        if str_eq(child.tag.as_str(), "Item") || str_eq(child.tag.as_str(), "RequiredItem") {
            let ghost dv0 = raw.deep_view();
            match child.attr("identifier") {
                Some(id) => {
                    raw.push(id.clone());
                    proof {
                        assert(raw.deep_view() =~= dv0.push(id@));
                    }
                },
                None => {
                    proof {
                        lemma_decon_mats_err(cs, i as int + 1);
                    }
                    return Err(Error::MaterialWithoutKey);
                },
            }
        }
        i = i + 1;
    }
    proof {
        assert(cs.subrange(0, cs.len() as int) =~= cs);
    }
    let time = match elem.attr("time") {
        None => {
            return Err(Error::MissingDeconstructTime);
        },
        Some(ts) => match crate::text::parse_i32(ts.as_str()) {
            None => {
                return Err(Error::InvalidInt);
            },
            Some(t) => t,
        },
    };
    if raw.len() > i32::MAX as usize {
        return Err(Error::TooManyMaterials);
    }
    let raw_slice = raw.as_slice();
    let deduped = dedup_things(raw_slice);
    proof {
        assert(raw_slice.deep_view() =~= raw.deep_view());
        assert(deduped.deep_view() =~= spec_dedup_counts(raw.deep_view())) by {
            let a = deduped.deep_view();
            let b = spec_dedup_counts(raw.deep_view());
            assert(counts_to_int(a).len() == a.len());
            assert forall|k: int| 0 <= k < a.len() implies a[k] == b[k] by {
                assert(counts_to_int(a)[k] == (a[k].0, a[k].1 as int));
                assert(counts_to_int(a)[k] == spec_dedup(raw.deep_view())[k]);
                assert(b[k] == (
                    spec_dedup(raw.deep_view())[k].0,
                    spec_dedup(raw.deep_view())[k].1 as i32,
                ));
            }
        }
    }
    let mats = sort_mat_ids(deduped);
    Ok(crate::model::Deconstruct { time, mats })
}

/// The put operation of the commonness override table: replace the
/// entry for the level type or append a new one.
pub open spec fn spec_commonness_put(
    s: Seq<(Seq<char>, crate::decimal::Decimal)>,
    key: Seq<char>,
    value: crate::decimal::Decimal,
) -> Seq<(Seq<char>, crate::decimal::Decimal)>
    decreases s.len(),
{
    if s.len() == 0 {
        seq![(key, value)]
    } else if s[0].0 == key {
        seq![(key, value)] + s.drop_first()
    } else {
        seq![s[0]] + spec_commonness_put(s.drop_first(), key, value)
    }
}

/// The state read from the `Commonness` children: the optional
/// default and the per-level overrides, later children overriding
/// earlier ones.
pub open spec fn spec_level_entries(children: Seq<SpecElement>) -> Result<
    (Option<crate::decimal::Decimal>, Seq<(Seq<char>, crate::decimal::Decimal)>),
    Error,
>
    decreases children.len(),
{
    if children.len() == 0 {
        Ok((None, Seq::empty()))
    } else {
        match spec_level_entries(children.drop_last()) {
            Err(e) => Err(e),
            Ok((def, ov)) => {
                let c = children.last();
                if c.tag == "Commonness"@ {
                    match crate::node::spec_attr(c, "commonness"@) {
                        None => Err(Error::MissingCommonness),
                        Some(cv) => match crate::decimal::spec_parse_decimal(cv) {
                            None => Err(Error::InvalidDecimal),
                            Some(d) => match crate::node::spec_attr(c, "leveltype"@) {
                                Some(lt) => Ok((def, spec_commonness_put(ov, lt, d))),
                                None => if def is Some {
                                    Err(Error::DuplicateDefaultCommonness)
                                } else {
                                    Ok((Some(d), ov))
                                },
                            },
                        },
                    }
                } else {
                    Ok((def, ov))
                }
            },
        }
    }
}

/// A failure while reading a prefix of the children decides the whole
/// reading.
proof fn lemma_level_entries_err(children: Seq<SpecElement>, n: int)
    requires
        0 <= n <= children.len(),
        spec_level_entries(children.subrange(0, n)) is Err,
    ensures
        spec_level_entries(children) == spec_level_entries(children.subrange(0, n)),
    decreases children.len() - n,
{
    if n == children.len() {
        assert(children.subrange(0, n) =~= children);
    } else {
        assert(children.subrange(0, n + 1).drop_last() =~= children.subrange(0, n));
        lemma_level_entries_err(children, n + 1);
    }
}

/// The reading of a level-resource element.
pub open spec fn spec_parse_level_resource(e: SpecElement) -> Result<
    crate::model::SpecLevelResource,
    Error,
> {
    match spec_level_entries(e.children) {
        Err(e2) => Err(e2),
        Ok((None, _)) => Err(Error::MissingDefaultCommonness),
        Ok((Some(d), ov)) => Ok(
            crate::model::SpecLevelResource { commonness_default: d, commonness: ov },
        ),
    }
}

/// Replacing or appending a canonical override keeps every override
/// canonical.
proof fn lemma_commonness_put_wf(
    s: Seq<(Seq<char>, crate::decimal::Decimal)>,
    key: Seq<char>,
    value: crate::decimal::Decimal,
)
    requires
        forall|i: int| 0 <= i < s.len() ==> (#[trigger] s[i]).1.wf(),
        value.wf(),
    ensures
        forall|i: int| 0 <= i < spec_commonness_put(s, key, value).len() ==> (
        #[trigger] spec_commonness_put(s, key, value)[i]).1.wf(),
    decreases s.len(),
{
    let d = spec_commonness_put(s, key, value);
    if s.len() == 0 {
    } else if s[0].0 == key {
        assert forall|i: int| 0 <= i < d.len() implies (#[trigger] d[i]).1.wf() by {
            if i > 0 {
                assert(d[i] == s.drop_first()[i - 1]);
                assert(s.drop_first()[i - 1] == s[i]);
            }
        }
    } else {
        assert(forall|i: int| 0 <= i < s.drop_first().len() ==> (#[trigger] s.drop_first()[i])
            == s[i + 1]);
        lemma_commonness_put_wf(s.drop_first(), key, value);
        assert forall|i: int| 0 <= i < d.len() implies (#[trigger] d[i]).1.wf() by {
            if i > 0 {
                assert(d[i] == spec_commonness_put(s.drop_first(), key, value)[i - 1]);
            } else {
                assert(d[0] == s[0]);
            }
        }
    }
}

/// Records a commonness override, replacing any earlier entry for the
/// same level type.
fn push_commonness(
    overrides: &mut Vec<(String, crate::decimal::Decimal)>,
    key: String,
    value: crate::decimal::Decimal,
)
    ensures
        final(overrides).deep_view() == spec_commonness_put(
            old(overrides).deep_view(),
            key@,
            value,
        ),
{
    let mut i: usize = 0;
    let n = overrides.len();
    proof {
        assert(overrides.deep_view().subrange(0, n as int) =~= overrides.deep_view());
        assert(overrides.deep_view().subrange(0, 0) + spec_commonness_put(
            overrides.deep_view().subrange(0, n as int),
            key@,
            value,
        ) =~= spec_commonness_put(overrides.deep_view(), key@, value));
    }
    while i < n
        invariant
            i <= n,
            n == overrides@.len(),
            overrides == old(overrides),
            forall|j: int| 0 <= j < i ==> (#[trigger] overrides.deep_view()[j]).0 != key@,
            spec_commonness_put(old(overrides).deep_view(), key@, value)
                == overrides.deep_view().subrange(0, i as int) + spec_commonness_put(
                overrides.deep_view().subrange(i as int, n as int),
                key@,
                value,
            ),
        decreases n - i,
    {
        let ghost suffix = overrides.deep_view().subrange(i as int, n as int);
        proof {
            assert(suffix[0] == overrides.deep_view()[i as int]);
            assert(suffix.drop_first() =~= overrides.deep_view().subrange(i as int + 1, n as int));
        }
        if str_eq(overrides[i].0.as_str(), key.as_str()) {
            let ghost before = overrides.deep_view();
            overrides.set(i, (key, value));
            proof {
                assert(overrides.deep_view() =~= before.update(i as int, (key@, value)));
                assert(before.subrange(0, i as int) + (seq![(key@, value)] + before.subrange(
                    i as int + 1,
                    n as int,
                )) =~= overrides.deep_view());
            }
            return ;
        }
        proof {
            assert(spec_commonness_put(suffix, key@, value) == seq![suffix[0]]
                + spec_commonness_put(suffix.drop_first(), key@, value));
            assert(overrides.deep_view().subrange(0, i as int) + seq![
                overrides.deep_view()[i as int],
            ] =~= overrides.deep_view().subrange(0, i as int + 1));
            assert(overrides.deep_view().subrange(0, i as int) + (seq![suffix[0]]
                + spec_commonness_put(suffix.drop_first(), key@, value))
                =~= overrides.deep_view().subrange(0, i as int + 1) + spec_commonness_put(
                overrides.deep_view().subrange(i as int + 1, n as int),
                key@,
                value,
            ));
        }
        i = i + 1;
    }
    let ghost before = overrides.deep_view();
    overrides.push((key, value));
    proof {
        assert(before.subrange(i as int, n as int) =~= Seq::<
            (Seq<char>, crate::decimal::Decimal),
        >::empty());
        assert(before.subrange(0, i as int) =~= before);
        assert(overrides.deep_view() =~= before.push((key@, value)));
        assert(before + seq![(key@, value)] =~= before.push((key@, value)));
    }
}

/// Reads a level-resource element: the default commonness and the
/// per-level overrides.
pub fn parse_level_resource(elem: &Element) -> (r: Result<crate::model::LevelResource, Error>)
    ensures
        crate::model::rview(r) == spec_parse_level_resource(elem@),
        r matches Ok(lr) ==> lr@.wf(),
{
    let ghost cs = crate::node::elems_view(elem.children@);
    proof {
        crate::node::lemma_elems_view_len(elem.children@);
        assert(cs.subrange(0, 0) =~= Seq::<SpecElement>::empty());
    }
    let mut default: Option<crate::decimal::Decimal> = None;
    let mut overrides: Vec<(String, crate::decimal::Decimal)> = Vec::new();
    let mut i: usize = 0;
    proof {
        assert(overrides.deep_view() =~= Seq::<(Seq<char>, crate::decimal::Decimal)>::empty());
    }
    while i < elem.children.len()
        invariant
            i <= elem.children@.len(),
            cs == crate::node::elems_view(elem.children@),
            cs.len() == elem.children@.len(),
            spec_level_entries(cs.subrange(0, i as int)) == Ok::<
                (Option<crate::decimal::Decimal>, Seq<(Seq<char>, crate::decimal::Decimal)>),
                Error,
            >((default, overrides.deep_view())),
            default matches Some(d) ==> d.wf(),
            forall|j: int| 0 <= j < overrides.deep_view().len() ==> (
            #[trigger] overrides.deep_view()[j]).1.wf(),
        decreases elem.children@.len() - i,
    {
        let child = &elem.children[i];
        proof {
            crate::node::lemma_elems_view_index(elem.children@, i as int);
            assert(cs.subrange(0, i as int + 1).drop_last() =~= cs.subrange(0, i as int));
            assert(cs.subrange(0, i as int + 1).last() == cs[i as int]);
        }
        if str_eq(child.tag.as_str(), "Commonness") {
            match child.attr("commonness") {
                None => {
                    proof {
                        lemma_level_entries_err(cs, i as int + 1);
                    }
                    return Err(Error::MissingCommonness);
                },
                Some(cv) => match crate::decimal::parse_decimal(cv.as_str()) {
                    None => {
                        proof {
                            lemma_level_entries_err(cs, i as int + 1);
                        }
                        return Err(Error::InvalidDecimal);
                    },
                    Some(d) => match child.attr("leveltype") {
                        Some(lt) => {
                            proof {
                                lemma_commonness_put_wf(overrides.deep_view(), lt@, d);
                            }
                            push_commonness(&mut overrides, lt.clone(), d);
                        },
                        None => {
                            if default.is_some() {
                                proof {
                                    lemma_level_entries_err(cs, i as int + 1);
                                }
                                return Err(Error::DuplicateDefaultCommonness);
                            }
                            default = Some(d);
                        },
                    },
                },
            }
        }
        i = i + 1;
    }
    proof {
        assert(cs.subrange(0, cs.len() as int) =~= cs);
    }
    match default {
        None => Err(Error::MissingDefaultCommonness),
        Some(d) => Ok(
            crate::model::LevelResource { commonness_default: d, commonness: overrides },
        ),
    }
}

} // verus!

verus! {

/// The display-name priority chain: a non-empty `name` attribute
/// wins; else a localization lookup through the `nameidentifier`
/// attribute; else a localization lookup through the item's own
/// identifier; else no name.
pub open spec fn spec_resolve_name(
    name_attr: Option<Seq<char>>,
    nameid_attr: Option<Seq<char>>,
    id: Seq<char>,
    loc: Seq<(Seq<char>, Seq<char>)>,
) -> Option<Seq<char>> {
    let explicit = match name_attr {
        Some(n) => if n.len() > 0 {
            Some(n)
        } else {
            None
        },
        None => None,
    };
    match explicit {
        Some(n) => Some(n),
        None => {
            let via_nameid = match nameid_attr {
                Some(nid) => crate::model::spec_loc_lookup(loc, "entityname."@ + nid),
                None => None,
            };
            match via_nameid {
                Some(x) => Some(x),
                None => crate::model::spec_loc_lookup(loc, "entityname."@ + id),
            }
        },
    }
}

/// The name-resolution law: a non-empty `name` attribute decides the
/// name whatever the localization table holds; with an empty or
/// absent `name`, a `nameidentifier` that resolves decides it; and
/// with no resolving source at all the item has no name.
pub proof fn lemma_name_resolution(
    name_attr: Option<Seq<char>>,
    nameid_attr: Option<Seq<char>>,
    id: Seq<char>,
    loc: Seq<(Seq<char>, Seq<char>)>,
)
    ensures
        (name_attr matches Some(n) && n.len() > 0) ==> spec_resolve_name(
            name_attr,
            nameid_attr,
            id,
            loc,
        ) == Some(name_attr->0),
        ((name_attr is None || name_attr->0.len() == 0) && nameid_attr is Some
            && crate::model::spec_loc_lookup(loc, "entityname."@ + nameid_attr->0) is Some)
            ==> spec_resolve_name(name_attr, nameid_attr, id, loc)
            == crate::model::spec_loc_lookup(loc, "entityname."@ + nameid_attr->0),
        ((name_attr is None || name_attr->0.len() == 0) && (nameid_attr is None
            || crate::model::spec_loc_lookup(loc, "entityname."@ + nameid_attr->0) is None)
            && crate::model::spec_loc_lookup(loc, "entityname."@ + id) is None)
            ==> spec_resolve_name(name_attr, nameid_attr, id, loc) is None,
{
}

/// Resolves an item's display name through the priority chain.
pub fn resolve_name(
    elem: &Element,
    id: &str,
    loc: &crate::model::Localization,
) -> (r: Option<String>)
    ensures
        r.deep_view() == spec_resolve_name(
            crate::node::spec_attr(elem@, "name"@),
            crate::node::spec_attr(elem@, "nameidentifier"@),
            id@,
            loc@,
        ),
{
    let explicit: Option<String> = match elem.attr("name") {
        Some(n) => {
            if n.as_str().unicode_len() > 0 {
                Some(n.clone())
            } else {
                None
            }
        },
        None => None,
    };
    match explicit {
        Some(n) => Some(n),
        None => {
            let via_nameid: Option<String> = match elem.attr("nameidentifier") {
                Some(nid) => match loc.item_name_opt(nid.as_str()) {
                    Some(x) => Some(x.clone()),
                    None => None,
                },
                None => None,
            };
            match via_nameid {
                Some(x) => Some(x),
                None => match loc.item_name_opt(id) {
                    Some(x) => Some(x.clone()),
                    None => None,
                },
            }
        },
    }
}

/// The reading of one item element: `None` when the element has no
/// `Price` child and is not cataloged.
pub open spec fn spec_parse_item(
    e: SpecElement,
    loc: Seq<(Seq<char>, Seq<char>)>,
) -> Result<Option<crate::model::SpecItem>, Error> {
    match crate::node::spec_first_child(e, "Price"@) {
        None => Ok(None),
        Some(price_elem) => match crate::node::spec_attr(e, "identifier"@) {
            None => Err(Error::MissingIdentifier),
            Some(id) => {
                let name = spec_resolve_name(
                    crate::node::spec_attr(e, "name"@),
                    crate::node::spec_attr(e, "nameidentifier"@),
                    id,
                    loc,
                );
                let lr = match crate::node::spec_first_child(e, "LevelResource"@) {
                    None => Ok(None),
                    Some(lre) => match spec_parse_level_resource(lre) {
                        Err(e2) => Err(e2),
                        Ok(l) => Ok(Some(l)),
                    },
                };
                match lr {
                    Err(e2) => Err(e2),
                    Ok(level_resource) => {
                        let tags = crate::text::spec_split(
                            match crate::node::spec_attr(e, "Tags"@) {
                                None => ""@,
                                Some(t) => t,
                            },
                            ',',
                        );
                        match spec_parse_prices(price_elem) {
                            Err(e2) => Err(e2),
                            Ok(prices) => {
                                let fab = match crate::node::spec_first_child(e, "Fabricate"@) {
                                    None => Ok(None),
                                    Some(f) => match spec_parse_fabricate(f) {
                                        Err(e2) => Err(e2),
                                        Ok(x) => Ok(Some(x)),
                                    },
                                };
                                match fab {
                                    Err(e2) => Err(e2),
                                    Ok(fabricate) => {
                                        let dec = match crate::node::spec_first_child(
                                            e,
                                            "Deconstruct"@,
                                        ) {
                                            None => Ok(None),
                                            Some(d) => match spec_parse_deconstruct(d) {
                                                Err(e2) => Err(e2),
                                                Ok(x) => Ok(Some(x)),
                                            },
                                        };
                                        match dec {
                                            Err(e2) => Err(e2),
                                            Ok(deconstruct) => Ok(
                                                Some(
                                                    crate::model::SpecItem {
                                                        id,
                                                        name,
                                                        tags,
                                                        prices,
                                                        fabricate,
                                                        deconstruct,
                                                        has_inventory_icon: crate::node::spec_first_child(
                                                            e,
                                                            "InventoryIcon"@,
                                                        ) is Some,
                                                        has_sprite: crate::node::spec_first_child(
                                                            e,
                                                            "Sprite"@,
                                                        ) is Some,
                                                        level_resource,
                                                    },
                                                ),
                                            ),
                                        }
                                    },
                                }
                            },
                        }
                    },
                }
            },
        },
    }
}

/// Reads one item element into a catalog item, or skips it when it
/// has no price.
pub fn parse_item(elem: &Element, loc: &crate::model::Localization) -> (r: Result<
    Option<crate::model::Item>,
    Error,
>)
    ensures
        match r {
            Ok(None) => spec_parse_item(elem@, loc@) == Ok::<
                Option<crate::model::SpecItem>,
                Error,
            >(None),
            Ok(Some(it)) => spec_parse_item(elem@, loc@) == Ok::<
                Option<crate::model::SpecItem>,
                Error,
            >(Some(it@)) && it@.wf(),
            Err(e) => spec_parse_item(elem@, loc@) == Err::<Option<crate::model::SpecItem>, Error>(
                e,
            ),
        },
{
    let price_elem = match elem.find_child("Price") {
        None => {
            return Ok(None);
        },
        Some(p) => p,
    };
    let id = match elem.attr("identifier") {
        None => {
            return Err(Error::MissingIdentifier);
        },
        Some(s) => s.clone(),
    };
    let name = resolve_name(elem, id.as_str(), loc);
    let level_resource = match elem.find_child("LevelResource") {
        None => None,
        Some(lre) => match parse_level_resource(lre) {
            Err(e) => {
                return Err(e);
            },
            Ok(l) => Some(l),
        },
    };
    let tags_string = match elem.attr("Tags") {
        Some(t) => t.clone(),
        None => String::from_str(""),
    };
    let tags = crate::text::split_char(tags_string.as_str(), ',');
    let prices = match parse_prices(price_elem) {
        Err(e) => {
            return Err(e);
        },
        Ok(p) => p,
    };
    let fabricate = match elem.find_child("Fabricate") {
        None => None,
        Some(f) => match parse_fabricate(f) {
            Err(e) => {
                return Err(e);
            },
            Ok(x) => Some(x),
        },
    };
    let deconstruct = match elem.find_child("Deconstruct") {
        None => None,
        Some(d) => match parse_deconstruct(d) {
            Err(e) => {
                return Err(e);
            },
            Ok(x) => Some(x),
        },
    };
    let has_inventory_icon = elem.has_child("InventoryIcon");
    let has_sprite = elem.has_child("Sprite");
    let item = crate::model::Item {
        id,
        name,
        tags,
        prices,
        fabricate,
        deconstruct,
        has_inventory_icon,
        has_sprite,
        level_resource,
    };
    proof {
        assert(item@ =~= spec_parse_item(elem@, loc@)->Ok_0->0);
    }
    Ok(Some(item))
}

/// The items read from one item container's children, in document
/// order.
pub open spec fn spec_items_of_children(
    children: Seq<SpecElement>,
    loc: Seq<(Seq<char>, Seq<char>)>,
) -> Result<Seq<crate::model::SpecItem>, Error>
    decreases children.len(),
{
    if children.len() == 0 {
        Ok(Seq::empty())
    } else {
        match spec_items_of_children(children.drop_last(), loc) {
            Err(e) => Err(e),
            Ok(prev) => match spec_parse_item(children.last(), loc) {
                Err(e) => Err(e),
                Ok(None) => Ok(prev),
                Ok(Some(item)) => Ok(prev.push(item)),
            },
        }
    }
}

/// A failure on a prefix of the children decides the whole reading.
proof fn lemma_items_of_children_err(
    children: Seq<SpecElement>,
    n: int,
    loc: Seq<(Seq<char>, Seq<char>)>,
)
    requires
        0 <= n <= children.len(),
        spec_items_of_children(children.subrange(0, n), loc) is Err,
    ensures
        spec_items_of_children(children, loc) == spec_items_of_children(
            children.subrange(0, n),
            loc,
        ),
    decreases children.len() - n,
{
    if n == children.len() {
        assert(children.subrange(0, n) =~= children);
    } else {
        assert(children.subrange(0, n + 1).drop_last() =~= children.subrange(0, n));
        lemma_items_of_children_err(children, n + 1, loc);
    }
}

/// The items read from one definition document: nothing unless the
/// document has an `Items` container.
pub open spec fn spec_items_of_doc(
    root: SpecElement,
    loc: Seq<(Seq<char>, Seq<char>)>,
) -> Result<Seq<crate::model::SpecItem>, Error> {
    match crate::node::spec_first_child(root, "Items"@) {
        None => Ok(Seq::empty()),
        Some(container) => spec_items_of_children(container.children, loc),
    }
}

/// The catalog read from the definition documents, in traversal
/// order; the known non-item manifest document is excluded by its
/// file name.
pub open spec fn spec_parse_items(
    docs: Seq<(Seq<char>, SpecElement)>,
    loc: Seq<(Seq<char>, Seq<char>)>,
) -> Result<Seq<crate::model::SpecItem>, Error>
    decreases docs.len(),
{
    if docs.len() == 0 {
        Ok(Seq::empty())
    } else {
        match spec_parse_items(docs.drop_last(), loc) {
            Err(e) => Err(e),
            Ok(prev) => if docs.last().0 == "uniqueitems.xml"@ {
                Ok(prev)
            } else {
                match spec_items_of_doc(docs.last().1, loc) {
                    Err(e) => Err(e),
                    Ok(items) => Ok(prev + items),
                }
            },
        }
    }
}

/// A failure on a prefix of the documents decides the whole reading.
proof fn lemma_parse_items_err(
    docs: Seq<(Seq<char>, SpecElement)>,
    n: int,
    loc: Seq<(Seq<char>, Seq<char>)>,
)
    requires
        0 <= n <= docs.len(),
        spec_parse_items(docs.subrange(0, n), loc) is Err,
    ensures
        spec_parse_items(docs, loc) == spec_parse_items(docs.subrange(0, n), loc),
    decreases docs.len() - n,
{
    if n == docs.len() {
        assert(docs.subrange(0, n) =~= docs);
    } else {
        assert(docs.subrange(0, n + 1).drop_last() =~= docs.subrange(0, n));
        lemma_parse_items_err(docs, n + 1, loc);
    }
}

/// Builds the item catalog from the definition documents, given as
/// (file name, document root) pairs in traversal order.
#[verifier::rlimit(50)]
pub fn parse_items(
    docs: &Vec<(String, Element)>,
    loc: &crate::model::Localization,
) -> (r: Result<Vec<crate::model::Item>, Error>)
    ensures
        match r {
            Ok(items) => spec_parse_items(docs.deep_view(), loc@) == Ok::<
                Seq<crate::model::SpecItem>,
                Error,
            >(items.deep_view()) && crate::model::spec_items_wf(items.deep_view()),
            Err(e) => spec_parse_items(docs.deep_view(), loc@) == Err::<
                Seq<crate::model::SpecItem>,
                Error,
            >(e),
        },
{
    let ghost ds = docs.deep_view();
    let mut items: Vec<crate::model::Item> = Vec::new();
    let mut d: usize = 0;
    proof {
        assert(ds.subrange(0, 0) =~= Seq::<(Seq<char>, SpecElement)>::empty());
        assert(items.deep_view() =~= Seq::<crate::model::SpecItem>::empty());
    }
    while d < docs.len()
        invariant
            d <= docs@.len(),
            ds == docs.deep_view(),
            ds.len() == docs@.len(),
            spec_parse_items(ds.subrange(0, d as int), loc@) == Ok::<
                Seq<crate::model::SpecItem>,
                Error,
            >(items.deep_view()),
            crate::model::spec_items_wf(items.deep_view()),
        decreases docs@.len() - d,
    {
        let doc = &docs[d];
        proof {
            assert(ds.subrange(0, d as int + 1).drop_last() =~= ds.subrange(0, d as int));
            assert(ds.subrange(0, d as int + 1).last() == ds[d as int]);
            assert(ds[d as int] == (docs@[d as int].0@, crate::node::elem_view(docs@[d as int].1)));
        }
        if !str_eq(doc.0.as_str(), "uniqueitems.xml") {
            match doc.1.find_child("Items") {
                None => {
                    proof {
                        assert(spec_items_of_doc(ds[d as int].1, loc@) == Ok::<
                            Seq<crate::model::SpecItem>,
                            Error,
                        >(Seq::empty()));
                        assert(items.deep_view() + Seq::<crate::model::SpecItem>::empty()
                            =~= items.deep_view());
                    }
                },
                Some(container) => {
                    let ghost cs = crate::node::elems_view(container.children@);
                    let ghost items0 = items.deep_view();
                    proof {
                        crate::node::lemma_elems_view_len(container.children@);
                        assert(cs.subrange(0, 0) =~= Seq::<SpecElement>::empty());
                        assert(items0 + Seq::<crate::model::SpecItem>::empty() =~= items0);
                    }
                    let mut c: usize = 0;
                    while c < container.children.len()
                        invariant
                            c <= container.children@.len(),
                            cs == crate::node::elems_view(container.children@),
                            cs.len() == container.children@.len(),
                            ds == docs.deep_view(),
                            ds.len() == docs@.len(),
                            d < ds.len(),
                            spec_parse_items(ds.subrange(0, d as int), loc@) == Ok::<
                                Seq<crate::model::SpecItem>,
                                Error,
                            >(items0),
                            ds[d as int].0 != "uniqueitems.xml"@,
                            crate::node::spec_first_child(ds[d as int].1, "Items"@) matches Some(
                                cv,
                            ) && cv.children == cs,
                            spec_items_of_children(cs.subrange(0, c as int), loc@) matches Ok(
                                got,
                            ) && items.deep_view() == items0 + got,
                            crate::model::spec_items_wf(items.deep_view()),
                        decreases container.children@.len() - c,
                    {
                        let child = &container.children[c];
                        proof {
                            crate::node::lemma_elems_view_index(container.children@, c as int);
                            assert(cs.subrange(0, c as int + 1).drop_last() =~= cs.subrange(
                                0,
                                c as int,
                            ));
                            assert(cs.subrange(0, c as int + 1).last() == cs[c as int]);
                        }
                        match parse_item(child, loc) {
                            Err(e) => {
                                proof {
                                    lemma_items_of_children_err(cs, c as int + 1, loc@);
                                    assert(ds.subrange(0, d as int + 1).drop_last() =~= ds.subrange(
                                        0,
                                        d as int,
                                    ));
                                    assert(ds.subrange(0, d as int + 1).last() == ds[d as int]);
                                    lemma_parse_items_err(ds, d as int + 1, loc@);
                                }
                                return Err(e);
                            },
                            Ok(None) => {},
                            Ok(Some(item)) => {
                                let ghost before = items.deep_view();
                                items.push(item);
                                proof {
                                    assert(items.deep_view() =~= before.push(item@));
                                    let got0 = spec_items_of_children(
                                        cs.subrange(0, c as int),
                                        loc@,
                                    )->Ok_0;
                                    assert(items.deep_view() =~= items0 + got0.push(item@));
                                    assert(crate::model::spec_items_wf(items.deep_view())) by {
                                        assert(forall|j: int|
                                            0 <= j < before.len()
                                                ==> (#[trigger] items.deep_view()[j])
                                                == before[j]);
                                        assert(items.deep_view()[before.len() as int] == item@);
                                    }
                                }
                            },
                        }
                        c = c + 1;
                    }
                    proof {
                        assert(cs.subrange(0, cs.len() as int) =~= cs);
                    }
                },
            }
        }
        d = d + 1;
    }
    proof {
        assert(ds.subrange(0, ds.len() as int) =~= ds);
    }
    Ok(items)
}

/// The reading of the whole database: the version token, the
/// localization table, and the item catalog.
pub open spec fn spec_parse_db(
    version_text: Seq<char>,
    loc_root: SpecElement,
    docs: Seq<(Seq<char>, SpecElement)>,
) -> Result<crate::model::SpecDb, Error> {
    match spec_find_version(version_text, 0) {
        None => Err(Error::MissingVersion),
        Some(version) => match spec_parse_localization(loc_root) {
            Err(e) => Err(e),
            Ok(loc) => match spec_parse_items(docs, loc) {
                Err(e) => Err(e),
                Ok(items) => Ok(crate::model::SpecDb { version, items, localization: loc }),
            },
        },
    }
}

/// Builds the database aggregate: the version token extracted from
/// the manifest text, the localization table, and the catalog built
/// from the definition documents.
pub fn parse_db(
    version_text: &str,
    loc_root: &Element,
    docs: &Vec<(String, Element)>,
) -> (r: Result<crate::model::Db, Error>)
    ensures
        match r {
            Ok(db) => spec_parse_db(version_text@, loc_root@, docs.deep_view()) == Ok::<
                crate::model::SpecDb,
                Error,
            >(db@) && crate::model::spec_items_wf(db@.items),
            Err(e) => spec_parse_db(version_text@, loc_root@, docs.deep_view()) == Err::<
                crate::model::SpecDb,
                Error,
            >(e),
        },
{
    let version = match parse_version(version_text) {
        Err(e) => {
            return Err(e);
        },
        Ok(v) => v,
    };
    let localization = match parse_localization(loc_root) {
        Err(e) => {
            return Err(e);
        },
        Ok(l) => l,
    };
    let items = match parse_items(docs, &localization) {
        Err(e) => {
            return Err(e);
        },
        Ok(items) => items,
    };
    let db = crate::model::Db { version, items, localization };
    proof {
        assert(db@ =~= spec_parse_db(version_text@, loc_root@, docs.deep_view())->Ok_0);
    }
    Ok(db)
}

} // verus!

verus! {

/// Recording an entry makes it the one its location looks up.
proof fn lemma_price_put_get_same(
    s: Seq<crate::model::SpecPriceEntry>,
    e: crate::model::SpecPriceEntry,
)
    ensures
        crate::model::spec_entry_lookup(spec_price_put(s, e), e.location) == Some(e),
    decreases s.len(),
{
    if s.len() == 0 {
        assert(spec_price_put(s, e)[0] == e);
    } else if s[0].location == e.location {
        assert(spec_price_put(s, e)[0] == e);
    } else {
        lemma_price_put_get_same(s.drop_first(), e);
        let r = spec_price_put(s, e);
        assert(r[0] == s[0]);
        assert(r.drop_first() =~= spec_price_put(s.drop_first(), e));
    }
}

/// Recording an entry leaves every other location's lookup unchanged.
proof fn lemma_price_put_get_other(
    s: Seq<crate::model::SpecPriceEntry>,
    e: crate::model::SpecPriceEntry,
    location: Seq<char>,
)
    requires
        location != e.location,
    ensures
        crate::model::spec_entry_lookup(spec_price_put(s, e), location)
            == crate::model::spec_entry_lookup(s, location),
    decreases s.len(),
{
    let r = spec_price_put(s, e);
    if s.len() == 0 {
        assert(r[0] == e);
        assert(r.drop_first() =~= Seq::<crate::model::SpecPriceEntry>::empty());
        assert(crate::model::spec_entry_lookup(r, location)
            == crate::model::spec_entry_lookup(r.drop_first(), location));
    } else if s[0].location == e.location {
        assert(r[0] == e);
        assert(r.drop_first() =~= s.drop_first());
        assert(crate::model::spec_entry_lookup(r, location)
            == crate::model::spec_entry_lookup(r.drop_first(), location));
        assert(crate::model::spec_entry_lookup(s, location)
            == crate::model::spec_entry_lookup(s.drop_first(), location));
    } else {
        lemma_price_put_get_other(s.drop_first(), e, location);
        assert(r[0] == s[0]);
        assert(r.drop_first() =~= spec_price_put(s.drop_first(), e));
        if s[0].location == location {
            assert(crate::model::spec_entry_lookup(r, location) == Some(s[0]));
            assert(crate::model::spec_entry_lookup(s, location) == Some(s[0]));
        } else {
            assert(crate::model::spec_entry_lookup(r, location)
                == crate::model::spec_entry_lookup(r.drop_first(), location));
            assert(crate::model::spec_entry_lookup(s, location)
                == crate::model::spec_entry_lookup(s.drop_first(), location));
        }
    }
}

/// When the whole price block reads without error, so does every one
/// of its `Price` children.
proof fn lemma_price_entries_child_ok(
    children: Seq<SpecElement>,
    sold_everywhere: Option<bool>,
    c: int,
)
    requires
        spec_price_entries(children, sold_everywhere) is Ok,
        0 <= c < children.len(),
        children[c].tag == "Price"@,
    ensures
        spec_price_entry(children[c], sold_everywhere) is Ok,
    decreases children.len(),
{
    if c == children.len() - 1 {
        assert(children.last() == children[c]);
    } else {
        assert(children.drop_last()[c] == children[c]);
        lemma_price_entries_child_ok(children.drop_last(), sold_everywhere, c);
    }
}

/// The entry a location looks up in the finished block is the one
/// read from the last `Price` child that carries that location type.
proof fn lemma_price_entries_last_wins(
    children: Seq<SpecElement>,
    sold_everywhere: Option<bool>,
    c: int,
)
    requires
        spec_price_entries(children, sold_everywhere) is Ok,
        0 <= c < children.len(),
        children[c].tag == "Price"@,
        forall|j: int|
            c < j < children.len() && (#[trigger] children[j]).tag == "Price"@
                ==> crate::node::spec_attr(children[j], "locationtype"@) != crate::node::spec_attr(
                children[c],
                "locationtype"@,
            ),
    ensures
        spec_price_entry(children[c], sold_everywhere) matches Ok(en)
            && crate::model::spec_entry_lookup(
            spec_price_entries(children, sold_everywhere)->Ok_0,
            en.location,
        ) == Some(en),
    decreases children.len(),
{
    lemma_price_entries_child_ok(children, sold_everywhere, c);
    let en = spec_price_entry(children[c], sold_everywhere)->Ok_0;
    assert(en.location == crate::node::spec_attr(children[c], "locationtype"@)->0);
    let prev = spec_price_entries(children.drop_last(), sold_everywhere)->Ok_0;
    if c == children.len() - 1 {
        assert(children.last() == children[c]);
        lemma_price_put_get_same(prev, en);
    } else {
        assert(children.drop_last()[c] == children[c]);
        assert(forall|j: int|
            c < j < children.drop_last().len() && (#[trigger] children.drop_last()[j]).tag
                == "Price"@ ==> children.drop_last()[j] == children[j]);
        lemma_price_entries_last_wins(children.drop_last(), sold_everywhere, c);
        let last = children.last();
        if last.tag == "Price"@ {
            lemma_price_entries_child_ok(children, sold_everywhere, children.len() - 1);
            let last_en = spec_price_entry(last, sold_everywhere)->Ok_0;
            assert(last_en.location == crate::node::spec_attr(last, "locationtype"@)->0);
            assert(crate::node::spec_attr(last, "locationtype"@) != crate::node::spec_attr(
                children[c],
                "locationtype"@,
            ));
            assert(last_en.location != en.location);
            lemma_price_put_get_other(prev, last_en, en.location);
        }
    }
}

/// The sold-inference law at the price-block level, stated of the
/// last `Price` child carrying its location type: a declared minimum
/// stock with no explicit flag means the location sells; so does a
/// truthy sold-everywhere declaration; and so does the absence of all
/// three signals.
pub proof fn lemma_parse_prices_sold(e: SpecElement, c: int)
    requires
        spec_parse_prices(e) is Ok,
        0 <= c < e.children.len(),
        e.children[c].tag == "Price"@,
        forall|j: int|
            c < j < e.children.len() && (#[trigger] e.children[j]).tag == "Price"@
                ==> crate::node::spec_attr(e.children[j], "locationtype"@)
                != crate::node::spec_attr(e.children[c], "locationtype"@),
    ensures
        crate::node::spec_attr(e.children[c], "locationtype"@) is Some,
        ({
            let p = spec_parse_prices(e)->Ok_0;
            let looked = p.lookup(crate::node::spec_attr(e.children[c], "locationtype"@)->0);
            let has_min = crate::node::spec_attr(e.children[c], "minavailable"@) is Some;
            let no_sold = crate::node::spec_attr(e.children[c], "sold"@) is None;
            &&& looked is Some
            &&& (has_min && no_sold ==> looked->0.sold)
            &&& (p.sold_everywhere == Some(true) && no_sold ==> looked->0.sold)
            &&& (p.sold_everywhere is None && !has_min && no_sold ==> looked->0.sold)
        }),
{
    let se = spec_sold_everywhere(e)->Ok_0;
    lemma_price_entries_last_wins(e.children, se, c);
    let en = spec_price_entry(e.children[c], se)->Ok_0;
    lemma_sold_inference(se);
}

} // verus!

verus! {

/// The name-resolution law at the item-builder level: a cataloged
/// item carries its element's identifier, its name is the priority
/// chain's verdict on that element, and the item is cataloged whether
/// or not a name was found.
pub proof fn lemma_parse_item_name(e: SpecElement, loc: Seq<(Seq<char>, Seq<char>)>)
    requires
        spec_parse_item(e, loc) is Ok,
        spec_parse_item(e, loc)->Ok_0 is Some,
    ensures
        crate::node::spec_attr(e, "identifier"@) is Some,
        ({
            let it = spec_parse_item(e, loc)->Ok_0->0;
            let name_attr = crate::node::spec_attr(e, "name"@);
            let nameid_attr = crate::node::spec_attr(e, "nameidentifier"@);
            &&& it.id == crate::node::spec_attr(e, "identifier"@)->0
            &&& it.name == spec_resolve_name(name_attr, nameid_attr, it.id, loc)
            &&& ((name_attr matches Some(n) && n.len() > 0) ==> it.name == Some(name_attr->0))
            &&& ((name_attr is None || name_attr->0.len() == 0) && nameid_attr is Some
                && crate::model::spec_loc_lookup(loc, "entityname."@ + nameid_attr->0) is Some
                ==> it.name == crate::model::spec_loc_lookup(loc, "entityname."@ + nameid_attr->0))
            &&& ((name_attr is None || name_attr->0.len() == 0) && (nameid_attr is None
                || crate::model::spec_loc_lookup(loc, "entityname."@ + nameid_attr->0) is None)
                && crate::model::spec_loc_lookup(loc, "entityname."@ + it.id) is None
                ==> it.name is None)
        }),
{
    let it = spec_parse_item(e, loc)->Ok_0->0;
    lemma_name_resolution(
        crate::node::spec_attr(e, "name"@),
        crate::node::spec_attr(e, "nameidentifier"@),
        it.id,
        loc,
    );
}

/// Every item of a container's reading was produced by one of the
/// container's children.
proof fn lemma_items_of_children_sources(children: Seq<SpecElement>, loc: Seq<(Seq<char>, Seq<char>)>)
    requires
        spec_items_of_children(children, loc) is Ok,
    ensures
        forall|k: int|
            #![trigger spec_items_of_children(children, loc)->Ok_0[k]]
            0 <= k < spec_items_of_children(children, loc)->Ok_0.len() ==> exists|c: int|
                0 <= c < children.len() && spec_parse_item(#[trigger] children[c], loc) == Ok::<
                    Option<crate::model::SpecItem>,
                    Error,
                >(Some(spec_items_of_children(children, loc)->Ok_0[k])),
    decreases children.len(),
{
    if children.len() > 0 {
        lemma_items_of_children_sources(children.drop_last(), loc);
        let prev = spec_items_of_children(children.drop_last(), loc)->Ok_0;
        let items = spec_items_of_children(children, loc)->Ok_0;
        assert forall|k: int| #![trigger items[k]]
            0 <= k < items.len() implies exists|c: int|
            0 <= c < children.len() && spec_parse_item(#[trigger] children[c], loc) == Ok::<
                Option<crate::model::SpecItem>,
                Error,
            >(Some(items[k])) by {
            if k < prev.len() {
                let c = choose|c: int|
                    0 <= c < children.drop_last().len() && spec_parse_item(
                        #[trigger] children.drop_last()[c],
                        loc,
                    ) == Ok::<Option<crate::model::SpecItem>, Error>(Some(prev[k]));
                assert(children[c] == children.drop_last()[c]);
                assert(items[k] == prev[k]);
            } else {
                assert(items[k] == items.last());
                assert(spec_parse_item(children[children.len() - 1], loc) == Ok::<
                    Option<crate::model::SpecItem>,
                    Error,
                >(Some(items[k])));
            }
        }
    }
}

/// Every cataloged item was produced by an item element of one of the
/// definition documents (never the excluded manifest document), so
/// the per-item laws, the name-resolution law among them, reach every
/// entry of the catalog.
pub proof fn lemma_parse_items_sources(
    docs: Seq<(Seq<char>, SpecElement)>,
    loc: Seq<(Seq<char>, Seq<char>)>,
)
    requires
        spec_parse_items(docs, loc) is Ok,
    ensures
        forall|k: int|
            #![trigger spec_parse_items(docs, loc)->Ok_0[k]]
            0 <= k < spec_parse_items(docs, loc)->Ok_0.len() ==> exists|d: int, c: int|
                0 <= d < docs.len() && docs[d].0 != "uniqueitems.xml"@
                    && crate::node::spec_first_child(docs[d].1, "Items"@) is Some && 0 <= c
                    < crate::node::spec_first_child(docs[d].1, "Items"@)->0.children.len()
                    && #[trigger] spec_parse_item(
                    crate::node::spec_first_child(docs[d].1, "Items"@)->0.children[c],
                    loc,
                ) == Ok::<Option<crate::model::SpecItem>, Error>(
                    Some(spec_parse_items(docs, loc)->Ok_0[k]),
                ),
    decreases docs.len(),
{
    if docs.len() > 0 {
        lemma_parse_items_sources(docs.drop_last(), loc);
        let prev = spec_parse_items(docs.drop_last(), loc)->Ok_0;
        let items = spec_parse_items(docs, loc)->Ok_0;
        let last = docs.last();
        assert forall|k: int| #![trigger items[k]]
            0 <= k < items.len() implies exists|d: int, c: int|
            0 <= d < docs.len() && docs[d].0 != "uniqueitems.xml"@
                && crate::node::spec_first_child(docs[d].1, "Items"@) is Some && 0 <= c
                < crate::node::spec_first_child(docs[d].1, "Items"@)->0.children.len()
                && #[trigger] spec_parse_item(
                crate::node::spec_first_child(docs[d].1, "Items"@)->0.children[c],
                loc,
            ) == Ok::<Option<crate::model::SpecItem>, Error>(Some(items[k])) by {
            if k < prev.len() {
                let (d, c) = choose|d: int, c: int|
                    0 <= d < docs.drop_last().len() && docs.drop_last()[d].0
                        != "uniqueitems.xml"@ && crate::node::spec_first_child(
                        docs.drop_last()[d].1,
                        "Items"@,
                    ) is Some && 0 <= c < crate::node::spec_first_child(
                        docs.drop_last()[d].1,
                        "Items"@,
                    )->0.children.len() && #[trigger] spec_parse_item(
                        crate::node::spec_first_child(docs.drop_last()[d].1, "Items"@)->0.children[c],
                        loc,
                    ) == Ok::<Option<crate::model::SpecItem>, Error>(Some(prev[k]));
                assert(docs[d] == docs.drop_last()[d]);
                assert(items[k] == prev[k]);
            } else {
                assert(last.0 != "uniqueitems.xml"@);
                let container = crate::node::spec_first_child(last.1, "Items"@);
                assert(container is Some);
                let doc_items = spec_items_of_children(container->0.children, loc)->Ok_0;
                lemma_items_of_children_sources(container->0.children, loc);
                assert(items[k] == doc_items[k - prev.len()]);
                let c = choose|c: int|
                    0 <= c < container->0.children.len() && spec_parse_item(
                        #[trigger] container->0.children[c],
                        loc,
                    ) == Ok::<Option<crate::model::SpecItem>, Error>(
                        Some(doc_items[k - prev.len()]),
                    );
                assert(docs[docs.len() - 1] == last);
            }
        }
    }
}

} // verus!
