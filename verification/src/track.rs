//! Tracks: which of the paths given are processed, in what order, and under
//! what name each appears in the table.

use vstd::prelude::*;

verus! {

/// The order of strings: `a` comes before `b` where, at the first position at
/// which they differ, `a` has the lower code point, or where `a` is a proper
/// prefix of `b`.
pub open spec fn precedes(a: Seq<char>, b: Seq<char>) -> bool
    decreases a.len(),
{
    if b.len() == 0 {
        false
    } else if a.len() == 0 {
        true
    } else if a[0] != b[0] {
        (a[0] as u32) < (b[0] as u32)
    } else {
        precedes(a.drop_first(), b.drop_first())
    }
}

/// No string comes before itself.
pub proof fn lemma_precedes_irreflexive(a: Seq<char>)
    ensures
        !precedes(a, a),
    decreases a.len(),
{
    if a.len() > 0 {
        lemma_precedes_irreflexive(a.drop_first());
    }
}

/// The order is transitive.
pub proof fn lemma_precedes_transitive(a: Seq<char>, b: Seq<char>, c: Seq<char>)
    requires
        precedes(a, b),
        precedes(b, c),
    ensures
        precedes(a, c),
    decreases a.len(),
{
    if a.len() > 0 && a[0] == b[0] && b[0] == c[0] {
        lemma_precedes_transitive(a.drop_first(), b.drop_first(), c.drop_first());
    }
}

/// Of two different strings one comes before the other.
pub proof fn lemma_precedes_total(a: Seq<char>, b: Seq<char>)
    requires
        a != b,
    ensures
        precedes(a, b) || precedes(b, a),
    decreases a.len(),
{
    if a.len() > 0 && b.len() > 0 && a[0] == b[0] {
        if a.drop_first() == b.drop_first() {
            assert(a =~= seq![a[0]] + a.drop_first());
            assert(b =~= seq![b[0]] + b.drop_first());
        }
        lemma_precedes_total(a.drop_first(), b.drop_first());
    } else if a.len() == 0 && b.len() == 0 {
        assert(a =~= b);
    } else if a.len() > 0 && b.len() > 0 {
        // different characters have different code points
        vstd::utf8::char_u32_cast(a[0], a[0] as u32);
        vstd::utf8::char_u32_cast(b[0], b[0] as u32);
    }
}

/// Compares two strings with `str`'s own `<`, which orders strings
/// lexicographically by their bytes and thereby by their code points.
#[verifier::external_body]
fn str_lt(a: &str, b: &str) -> (r: bool)
    ensures
        r == precedes(a@, b@),
{
    a < b
}

/// The paths of a sequence of strings, as sequences of characters.
pub open spec fn path_views(paths: Seq<String>) -> Seq<Seq<char>> {
    paths.map_values(|p: String| p@)
}

/// Each string comes before all that follow it.
pub open spec fn strictly_ascending(s: Seq<Seq<char>>) -> bool {
    forall|i: int, j: int| 0 <= i < j < s.len() ==> precedes(#[trigger] s[i], #[trigger] s[j])
}

/// `order` is the processing order of `paths`: the same paths, each once, in
/// ascending order.
pub open spec fn is_schedule(order: Seq<Seq<char>>, paths: Seq<Seq<char>>) -> bool {
    &&& strictly_ascending(order)
    &&& forall|p: Seq<char>| order.contains(p) <==> paths.contains(p)
}

/// A strictly ascending sequence holds nothing twice.
pub proof fn lemma_ascending_no_duplicates(s: Seq<Seq<char>>)
    requires
        strictly_ascending(s),
    ensures
        s.no_duplicates(),
{
    assert forall|i: int, j: int| 0 <= i < s.len() && 0 <= j < s.len() && i != j implies s[i]
        != s[j] by {
        lemma_precedes_irreflexive(s[i]);
        if i < j {
            assert(precedes(s[i], s[j]));
        } else {
            assert(precedes(s[j], s[i]));
        }
    }
}

/// A processing order is as long as its paths are many, a path given twice
/// counted once.
pub proof fn lemma_schedule_len(order: Seq<Seq<char>>, paths: Seq<Seq<char>>)
    requires
        is_schedule(order, paths),
    ensures
        order.len() == paths.to_set().len(),
        order.len() <= paths.len(),
{
    lemma_ascending_no_duplicates(order);
    order.unique_seq_to_set();
    assert(order.to_set() =~= paths.to_set());
    paths.lemma_cardinality_of_set();
}

/// Two ascending sequences that hold the same strings are one sequence.
pub proof fn lemma_ascending_equal(a: Seq<Seq<char>>, b: Seq<Seq<char>>)
    requires
        strictly_ascending(a),
        strictly_ascending(b),
        forall|p: Seq<char>| a.contains(p) <==> b.contains(p),
    ensures
        a == b,
    decreases a.len(),
{
    if a.len() == 0 {
        if b.len() > 0 {
            assert(b.contains(b[0]));
        }
        assert(a =~= b);
    } else {
        assert(a.contains(a[0]));
        let j = choose|j: int| 0 <= j < b.len() && b[j] == a[0];
        assert(b.contains(b[0]));
        let i = choose|i: int| 0 <= i < a.len() && a[i] == b[0];
        lemma_precedes_irreflexive(a[0]);
        if j > 0 {
            assert(precedes(b[0], b[j]));
            if i > 0 {
                assert(precedes(a[0], a[i]));
                lemma_precedes_transitive(a[0], b[0], a[0]);
            }
        }
        assert(a[0] == b[0]);
        let a1 = a.drop_first();
        let b1 = b.drop_first();
        assert forall|x: int, y: int| 0 <= x < y < a1.len() implies precedes(
            #[trigger] a1[x],
            #[trigger] a1[y],
        ) by {
            assert(precedes(a[x + 1], a[y + 1]));
        }
        assert forall|x: int, y: int| 0 <= x < y < b1.len() implies precedes(
            #[trigger] b1[x],
            #[trigger] b1[y],
        ) by {
            assert(precedes(b[x + 1], b[y + 1]));
        }
        assert forall|p: Seq<char>| a1.contains(p) <==> b1.contains(p) by {
            if a1.contains(p) {
                let k = choose|k: int| 0 <= k < a1.len() && a1[k] == p;
                assert(precedes(a[0], a[k + 1]));
                assert(a.contains(a[k + 1]));
                let m = choose|m: int| 0 <= m < b.len() && b[m] == p;
                assert(b1[m - 1] == p);
            }
            if b1.contains(p) {
                let k = choose|k: int| 0 <= k < b1.len() && b1[k] == p;
                assert(precedes(b[0], b[k + 1]));
                assert(b.contains(b[k + 1]));
                let m = choose|m: int| 0 <= m < a.len() && a[m] == p;
                assert(a1[m - 1] == p);
            }
        }
        lemma_ascending_equal(a1, b1);
        assert(a =~= seq![a[0]] + a1);
        assert(b =~= seq![b[0]] + b1);
    }
}

/// The tracks processed, and their order, depend only on which paths were
/// given: not on the order in which they were given, nor on how often.
pub proof fn lemma_schedule_unique(
    order1: Seq<Seq<char>>,
    paths1: Seq<Seq<char>>,
    order2: Seq<Seq<char>>,
    paths2: Seq<Seq<char>>,
)
    requires
        is_schedule(order1, paths1),
        is_schedule(order2, paths2),
        paths1.to_set() == paths2.to_set(),
    ensures
        order1 == order2,
{
    assert forall|p: Seq<char>| order1.contains(p) <==> order2.contains(p) by {
        assert(paths1.contains(p) <==> paths1.to_set().contains(p));
        assert(paths2.contains(p) <==> paths2.to_set().contains(p));
    }
    lemma_ascending_equal(order1, order2);
}

/// The tracks to process: the paths given, each once, in ascending order.
/// The order in which the paths were given plays no part.
pub fn distinct_tracks(paths: &Vec<String>) -> (order: Vec<String>)
    ensures
        is_schedule(path_views(order@), path_views(paths@)),
        order.len() == path_views(paths@).to_set().len(),
        order.len() <= paths.len(),
{
    let mut out: Vec<String> = Vec::new();
    let mut i: usize = 0;
    while i < paths.len()
        invariant
            i <= paths.len(),
            strictly_ascending(path_views(out@)),
            forall|j: int| 0 <= j < out.len() ==> path_views(paths@).take(i as int).contains(#[trigger] out[j]@),
            forall|m: int| 0 <= m < i ==> path_views(out@).contains(#[trigger] paths[m]@),
        decreases paths.len() - i,
    {
        let ghost before = path_views(out@);
        let ghost seen = path_views(paths@).take(i as int);
        let ghost p = paths[i as int]@;
        assert forall|w: int| 0 <= w < before.len() implies seen.contains(#[trigger] before[w]) by {
            assert(before[w] == out[w]@);
        }
        let mut k: usize = 0;
        while k < out.len() && str_lt(out[k].as_str(), paths[i].as_str())
            invariant
                k <= out.len(),
                i < paths.len(),
                p == paths[i as int]@,
                forall|j: int| 0 <= j < k ==> precedes(#[trigger] out[j]@, p),
            decreases out.len() - k,
        {
            k = k + 1;
        }
        let present = k < out.len() && out[k] == paths[i];
        if present {
            assert(before[k as int] == p);
        } else {
            out.insert(k, paths[i].clone());
            let ghost after = path_views(out@);
            assert(after =~= before.insert(k as int, p));
            assert forall|a: int, b: int| 0 <= a < b < after.len() implies precedes(
                #[trigger] after[a],
                #[trigger] after[b],
            ) by {
                if b < k {
                    assert(after[a] == before[a] && after[b] == before[b]);
                } else if b == k {
                    assert(after[a] == before[a]);
                } else if a == k {
                    // p comes before what stood at k, and that before all behind it
                    assert(after[b] == before[b - 1]);
                    assert(!precedes(before[k as int], p));
                    lemma_precedes_total(before[k as int], p);
                    if b - 1 > k {
                        assert(precedes(before[k as int], before[b - 1]));
                        lemma_precedes_transitive(p, before[k as int], before[b - 1]);
                    }
                } else if a < k {
                    assert(after[a] == before[a] && after[b] == before[b - 1]);
                } else {
                    assert(after[a] == before[a - 1] && after[b] == before[b - 1]);
                }
            }
            assert(after[k as int] == p);
            assert forall|m: int| 0 <= m < i implies after.contains(#[trigger] paths[m]@) by {
                let w = choose|w: int| 0 <= w < before.len() && before[w] == paths[m]@;
                if w < k {
                    assert(after[w] == paths[m]@);
                } else {
                    assert(after[w + 1] == paths[m]@);
                }
            }
        }
        proof {
            let now = path_views(out@);
            let seen_next = path_views(paths@).take(i as int + 1);
            assert(seen_next[i as int] == p);
            assert forall|j: int| 0 <= j < out.len() implies seen_next.contains(
                #[trigger] out[j]@,
            ) by {
                if now[j] == p {
                } else {
                    let w = choose|w: int| 0 <= w < before.len() && before[w] == now[j];
                    assert(seen.contains(before[w]));
                    let m = choose|m: int| 0 <= m < seen.len() && seen[m] == before[w];
                    assert(seen_next[m] == now[j]);
                }
            }
        }
        i = i + 1;
    }
    proof {
        let order = path_views(out@);
        let all = path_views(paths@);
        assert(all.take(paths.len() as int) =~= all);
        assert forall|p: Seq<char>| order.contains(p) <==> all.contains(p) by {
            if order.contains(p) {
                let j = choose|j: int| 0 <= j < order.len() && order[j] == p;
                assert(all.contains(out[j]@));
            }
            if all.contains(p) {
                let m = choose|m: int| 0 <= m < all.len() && all[m] == p;
                assert(order.contains(paths[m]@));
            }
        }
        lemma_schedule_len(order, all);
    }
    out
}

} // verus!
