//! Deterministic orderings. Room-derived lists are sorted by a fixed linear
//! key before any seeded shuffle touches them, so generation is reproducible
//! whatever order the rooms are stored in. Each sort repeatedly moves the
//! earliest extremal element, so ties keep their original order; the
//! contracts state the preserved contents and the resulting order, and a
//! test pins the tie behaviour.

use vstd::prelude::*;
use vstd::multiset::Multiset;
use crate::base::Offset;
use crate::path::{Path, ConnectedPath};

verus! {

/// The fixed linear sort key of a room offset.
pub open spec fn offset_key(o: Offset) -> int {
    o.x + o.y * 1000
}

/// Keys are non-decreasing along the sequence.
pub open spec fn keys_sorted(s: Seq<Offset>) -> bool {
    forall|i: int, j: int| 0 <= i < j < s.len() ==> offset_key(s[i]) <= offset_key(s[j])
}

/// Lengths are non-increasing along the sequence.
pub open spec fn path_lens_sorted(s: Seq<Path>) -> bool {
    forall|i: int, j: int| 0 <= i < j < s.len() ==> (#[trigger] s[i]).0@.len() >= (#[trigger] s[j]).0@.len()
}

/// Lengths are non-increasing along the sequence.
pub open spec fn edge_lens_sorted(s: Seq<ConnectedPath>) -> bool {
    forall|i: int, j: int| 0 <= i < j < s.len() ==> (#[trigger] s[i])@.len() >= (#[trigger] s[j])@.len()
}

/// The fixed linear sort key of a room offset, as executable code.
pub fn offset_key_of(o: &Offset) -> (r: i32)
    requires
        0 <= o.x <= 2000000,
        0 <= o.y <= 2000000,
    ensures
        r == offset_key(*o),
{
    o.x + o.y * 1000
}


/// Moving one element from the working list to the output keeps the two
/// lists' combined contents unchanged.
proof fn lemma_move_multiset<T>(
    prev: Seq<T>,
    prev_out: Seq<T>,
    now: Seq<T>,
    now_out: Seq<T>,
    m: int,
    total: Multiset<T>,
)
    requires
        0 <= m < prev.len(),
        now == prev.remove(m),
        now_out == prev_out.push(prev[m]),
        prev_out.to_multiset().add(prev.to_multiset()) == total,
    ensures
        now_out.to_multiset().add(now.to_multiset()) == total,
{
    broadcast use vstd::seq_lib::group_to_multiset_ensures;

    assert(now.to_multiset() =~= prev.to_multiset().remove(prev[m]));
    assert(now_out.to_multiset() =~= prev_out.to_multiset().insert(prev[m]));
    assert(prev.contains(prev[m]));
    assert(prev.to_multiset().count(prev[m]) > 0);
    assert(now_out.to_multiset().add(now.to_multiset()) =~= total);
}

/// Membership carries across sequences with the same contents.
pub proof fn lemma_contains_via_multiset<T>(a: Seq<T>, b: Seq<T>, x: T)
    requires
        a.to_multiset() == b.to_multiset(),
        b.contains(x),
    ensures
        a.contains(x),
{
    broadcast use vstd::seq_lib::group_to_multiset_ensures;

    assert(b.to_multiset().count(x) > 0);
    assert(a.to_multiset().count(x) > 0);
}

/// Sorts offsets by the fixed linear key, ascending, moving the earliest
/// of equal keys first.
pub fn sort_offsets(v: &mut Vec<Offset>)
    requires
        forall|j: int|
            0 <= j < old(v)@.len() ==> 0 <= (#[trigger] old(v)@[j]).x <= 2000000 && 0 <= old(
                v,
            )@[j].y <= 2000000,
    ensures
        final(v)@.len() == old(v)@.len(),
        final(v)@.to_multiset() == old(v)@.to_multiset(),
        keys_sorted(final(v)@),
{
    broadcast use vstd::seq_lib::group_to_multiset_ensures;

    let ghost total = v@.to_multiset();
    let ghost n0 = v@.len() as int;
    let mut out: Vec<Offset> = Vec::new();
    while v.len() > 0
        invariant
            out@.len() + v@.len() == n0,
            out@.to_multiset().add(v@.to_multiset()) == total,
            keys_sorted(out@),
            forall|j: int|
                0 <= j < v@.len() ==> 0 <= (#[trigger] v@[j]).x <= 2000000 && 0 <= v@[j].y
                    <= 2000000,
            forall|a: int, b: int|
                0 <= a < out@.len() && 0 <= b < v@.len() ==> offset_key(#[trigger] out@[a])
                    <= offset_key(#[trigger] v@[b]),
        decreases v@.len(),
    {
        let mut m: usize = 0;
        let mut mi: usize = 1;
        while mi < v.len()
            invariant
                v@.len() > 0,
                m < mi <= v@.len(),
                forall|j: int|
                    0 <= j < v@.len() ==> 0 <= (#[trigger] v@[j]).x <= 2000000 && 0 <= v@[j].y
                        <= 2000000,
                forall|j: int| 0 <= j < mi ==> offset_key(v@[m as int]) <= offset_key(#[trigger] v@[j]),
            decreases v@.len() - mi,
        {
            if offset_key_of(&v[mi]) < offset_key_of(&v[m]) {
                m = mi;
            }
            mi += 1;
        }
        let ghost prev = v@;
        let ghost prev_out = out@;
        let x = v.remove(m);
        out.push(x);
        proof {
            assert(x == prev[m as int]);
            assert(v@ == prev.remove(m as int));
            assert(out@ == prev_out.push(prev[m as int]));
            lemma_move_multiset(prev, prev_out, v@, out@, m as int, total);
            assert forall|a: int, b: int|
                0 <= a < out@.len() && 0 <= b < v@.len() implies offset_key(#[trigger] out@[a])
                <= offset_key(#[trigger] v@[b]) by {
                assert(v@[b] == prev[if b < m { b } else { b + 1 }]);
                if a < prev_out.len() {
                    assert(out@[a] == prev_out[a]);
                } else {
                    assert(out@[a] == x);
                }
            }
            assert forall|i: int, j: int|
                0 <= i < j < out@.len() implies offset_key(out@[i]) <= offset_key(out@[j]) by {
                if j == out@.len() - 1 {
                    assert(out@[i] == prev_out[i]);
                    assert(out@[j] == x && x == prev[m as int]);
                }
            }
        }
    }
    proof {
        assert(v@.to_multiset() =~= Multiset::<Offset>::empty());
        assert(out@.to_multiset() =~= total);
    }
    *v = out;
}

/// Sorts paths by length, descending, moving the earliest of equal lengths
/// first: the longest paths come first.
pub fn sort_paths_desc(v: &mut Vec<Path>)
    ensures
        final(v)@.len() == old(v)@.len(),
        final(v)@.to_multiset() == old(v)@.to_multiset(),
        path_lens_sorted(final(v)@),
{
    broadcast use vstd::seq_lib::group_to_multiset_ensures;

    let ghost total = v@.to_multiset();
    let ghost n0 = v@.len() as int;
    let mut out: Vec<Path> = Vec::new();
    while v.len() > 0
        invariant
            out@.len() + v@.len() == n0,
            out@.to_multiset().add(v@.to_multiset()) == total,
            path_lens_sorted(out@),
            forall|a: int, b: int|
                0 <= a < out@.len() && 0 <= b < v@.len() ==> (#[trigger] out@[a]).0@.len() >= (
                #[trigger] v@[b]).0@.len(),
        decreases v@.len(),
    {
        let mut m: usize = 0;
        let mut mi: usize = 1;
        while mi < v.len()
            invariant
                v@.len() > 0,
                m < mi <= v@.len(),
                forall|j: int|
                    0 <= j < mi ==> v@[m as int].0@.len() >= (#[trigger] v@[j]).0@.len(),
            decreases v@.len() - mi,
        {
            if v[mi].0.len() > v[m].0.len() {
                m = mi;
            }
            mi += 1;
        }
        let ghost prev = v@;
        let ghost prev_out = out@;
        let x = v.remove(m);
        out.push(x);
        proof {
            assert(v@ == prev.remove(m as int));
            assert(out@ == prev_out.push(prev[m as int]));
            lemma_move_multiset(prev, prev_out, v@, out@, m as int, total);
            assert forall|a: int, b: int|
                0 <= a < out@.len() && 0 <= b < v@.len() implies (#[trigger] out@[a]).0@.len() >= (
            #[trigger] v@[b]).0@.len() by {
                assert(v@[b] == prev[if b < m { b } else { b + 1 }]);
                if a < prev_out.len() {
                    assert(out@[a] == prev_out[a]);
                } else {
                    assert(out@[a] == prev[m as int]);
                }
            }
            assert forall|i: int, j: int|
                0 <= i < j < out@.len() implies (#[trigger] out@[i]).0@.len() >= (
            #[trigger] out@[j]).0@.len() by {
                if j == out@.len() - 1 {
                    assert(out@[i] == prev_out[i]);
                    assert(out@[j] == prev[m as int]);
                }
            }
        }
    }
    proof {
        assert(v@.to_multiset() =~= Multiset::<Path>::empty());
        assert(out@.to_multiset() =~= total);
    }
    *v = out;
}

/// Sorts edge lists by length, descending, moving the earliest of equal
/// lengths first.
pub fn sort_edges_desc(v: &mut Vec<ConnectedPath>)
    ensures
        final(v)@.len() == old(v)@.len(),
        final(v)@.to_multiset() == old(v)@.to_multiset(),
        edge_lens_sorted(final(v)@),
{
    broadcast use vstd::seq_lib::group_to_multiset_ensures;

    let ghost total = v@.to_multiset();
    let ghost n0 = v@.len() as int;
    let mut out: Vec<ConnectedPath> = Vec::new();
    while v.len() > 0
        invariant
            out@.len() + v@.len() == n0,
            out@.to_multiset().add(v@.to_multiset()) == total,
            edge_lens_sorted(out@),
            forall|a: int, b: int|
                0 <= a < out@.len() && 0 <= b < v@.len() ==> (#[trigger] out@[a])@.len() >= (
                #[trigger] v@[b])@.len(),
        decreases v@.len(),
    {
        let mut m: usize = 0;
        let mut mi: usize = 1;
        while mi < v.len()
            invariant
                v@.len() > 0,
                m < mi <= v@.len(),
                forall|j: int| 0 <= j < mi ==> v@[m as int]@.len() >= (#[trigger] v@[j])@.len(),
            decreases v@.len() - mi,
        {
            if v[mi].len() > v[m].len() {
                m = mi;
            }
            mi += 1;
        }
        let ghost prev = v@;
        let ghost prev_out = out@;
        let x = v.remove(m);
        out.push(x);
        proof {
            assert(v@ == prev.remove(m as int));
            assert(out@ == prev_out.push(prev[m as int]));
            lemma_move_multiset(prev, prev_out, v@, out@, m as int, total);
            assert forall|a: int, b: int|
                0 <= a < out@.len() && 0 <= b < v@.len() implies (#[trigger] out@[a])@.len() >= (
            #[trigger] v@[b])@.len() by {
                assert(v@[b] == prev[if b < m { b } else { b + 1 }]);
                if a < prev_out.len() {
                    assert(out@[a] == prev_out[a]);
                } else {
                    assert(out@[a] == prev[m as int]);
                }
            }
            assert forall|i: int, j: int|
                0 <= i < j < out@.len() implies (#[trigger] out@[i])@.len() >= (
            #[trigger] out@[j])@.len() by {
                if j == out@.len() - 1 {
                    assert(out@[i] == prev_out[i]);
                    assert(out@[j] == prev[m as int]);
                }
            }
        }
    }
    proof {
        assert(v@.to_multiset() =~= Multiset::<ConnectedPath>::empty());
        assert(out@.to_multiset() =~= total);
    }
    *v = out;
}

} // verus!
