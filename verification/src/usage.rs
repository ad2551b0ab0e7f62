//! The reassembly-template usage record and the least-used selection: every
//! chosen template is counted under a key that joins the decomposition rule
//! source with the template text, a never-used template takes precedence,
//! and among used ones the lowest count wins, first seen first.

use vstd::prelude::*;

verus! {

/// The mathematical view of the usage record: key and count pairs, in
/// insertion order. Lookups find the first pair with a given key.
pub open spec fn usage_view(v: Seq<(String, usize)>) -> Seq<(Seq<char>, int)> {
    Seq::new(v.len(), |i: int| (v[i].0@, v[i].1 as int))
}

/// The count stored under `k`: the first pair with that key decides.
pub open spec fn usage_lookup(u: Seq<(Seq<char>, int)>, k: Seq<char>) -> Option<int>
    decreases u.len(),
{
    if u.len() == 0 {
        None
    } else if u[0].0 == k {
        Some(u[0].1)
    } else {
        usage_lookup(u.skip(1), k)
    }
}

/// A count after one more use; it stops growing at the machine's limit.
pub open spec fn bump_val(v: int) -> int {
    if v < usize::MAX {
        v + 1
    } else {
        v
    }
}

/// The record with the count under `k` raised by one use; the first pair
/// with that key is the one raised.
pub open spec fn usage_bump(u: Seq<(Seq<char>, int)>, k: Seq<char>) -> Seq<(Seq<char>, int)>
    decreases u.len(),
{
    if u.len() == 0 {
        u
    } else if u[0].0 == k {
        seq![(k, bump_val(u[0].1))] + u.skip(1)
    } else {
        seq![u[0]] + usage_bump(u.skip(1), k)
    }
}

proof fn lemma_usage_lookup_at(u: Seq<(Seq<char>, int)>, k: Seq<char>, p: int)
    requires
        0 <= p < u.len(),
        u[p].0 == k,
        forall|j: int| 0 <= j < p ==> (#[trigger] u[j]).0 != k,
    ensures
        usage_lookup(u, k) == Some(u[p].1),
    decreases u.len(),
{
    if p > 0 {
        assert(u.skip(1)[p - 1] == u[p]);
        assert(forall|j: int| 0 <= j < p - 1 ==> u.skip(1)[j] == u[j + 1]);
        lemma_usage_lookup_at(u.skip(1), k, p - 1);
    }
}

proof fn lemma_usage_lookup_none(u: Seq<(Seq<char>, int)>, k: Seq<char>)
    requires
        forall|j: int| 0 <= j < u.len() ==> (#[trigger] u[j]).0 != k,
    ensures
        usage_lookup(u, k) is None,
    decreases u.len(),
{
    if u.len() > 0 {
        assert(forall|j: int| 0 <= j < u.skip(1).len() ==> u.skip(1)[j] == u[j + 1]);
        lemma_usage_lookup_none(u.skip(1), k);
    }
}

proof fn lemma_usage_lookup_none_all(u: Seq<(Seq<char>, int)>, k: Seq<char>)
    requires
        usage_lookup(u, k) is None,
    ensures
        forall|j: int| 0 <= j < u.len() ==> (#[trigger] u[j]).0 != k,
    decreases u.len(),
{
    if u.len() > 0 {
        lemma_usage_lookup_none_all(u.skip(1), k);
        assert(forall|j: int| 1 <= j < u.len() ==> u.skip(1)[j - 1] == u[j]);
    }
}

proof fn lemma_usage_bump_at(u: Seq<(Seq<char>, int)>, k: Seq<char>, p: int)
    requires
        0 <= p < u.len(),
        u[p].0 == k,
        forall|j: int| 0 <= j < p ==> (#[trigger] u[j]).0 != k,
    ensures
        usage_bump(u, k) == u.update(p, (k, bump_val(u[p].1))),
    decreases u.len(),
{
    if p == 0 {
        assert(usage_bump(u, k) =~= u.update(0, (k, bump_val(u[0].1))));
    } else {
        assert(u.skip(1)[p - 1] == u[p]);
        assert(forall|j: int| 0 <= j < p - 1 ==> u.skip(1)[j] == u[j + 1]);
        lemma_usage_bump_at(u.skip(1), k, p - 1);
        assert(usage_bump(u, k) == seq![u[0]] + u.skip(1).update(p - 1, (k, bump_val(u[p].1))));
        assert(usage_bump(u, k) =~= u.update(p, (k, bump_val(u[p].1))));
    }
}

/// The selection key of a template under a decomposition rule.
pub open spec fn sel_key(id: Seq<char>, t: Seq<char>) -> Seq<char> {
    id + t
}

/// The position of the first template whose key has never been counted.
pub open spec fn first_unused(
    u: Seq<(Seq<char>, int)>,
    id: Seq<char>,
    ts: Seq<Seq<char>>,
) -> Option<int>
    decreases ts.len(),
{
    if ts.len() == 0 {
        None
    } else if usage_lookup(u, sel_key(id, ts[0])) is None {
        Some(0)
    } else {
        match first_unused(u, id, ts.skip(1)) {
            Some(j) => Some(j + 1),
            None => None,
        }
    }
}

proof fn lemma_first_unused_at(
    u: Seq<(Seq<char>, int)>,
    id: Seq<char>,
    ts: Seq<Seq<char>>,
    p: int,
)
    requires
        0 <= p < ts.len(),
        usage_lookup(u, sel_key(id, ts[p])) is None,
        forall|j: int| 0 <= j < p ==> usage_lookup(u, sel_key(id, #[trigger] ts[j])) is Some,
    ensures
        first_unused(u, id, ts) == Some(p),
    decreases ts.len(),
{
    if p > 0 {
        assert(ts.skip(1)[p - 1] == ts[p]);
        assert(forall|j: int| 0 <= j < p - 1 ==> ts.skip(1)[j] == ts[j + 1]);
        lemma_first_unused_at(u, id, ts.skip(1), p - 1);
    }
}

pub proof fn lemma_first_unused_none(u: Seq<(Seq<char>, int)>, id: Seq<char>, ts: Seq<Seq<char>>)
    requires
        forall|j: int| 0 <= j < ts.len() ==> usage_lookup(u, sel_key(id, #[trigger] ts[j])) is Some,
    ensures
        first_unused(u, id, ts) is None,
    decreases ts.len(),
{
    if ts.len() > 0 {
        assert(forall|j: int| 0 <= j < ts.skip(1).len() ==> ts.skip(1)[j] == ts[j + 1]);
        lemma_first_unused_none(u, id, ts.skip(1));
    }
}

/// The stored count of a template, where every template is known used.
pub open spec fn count_of(u: Seq<(Seq<char>, int)>, id: Seq<char>, t: Seq<char>) -> int {
    usage_lookup(u, sel_key(id, t)) ->Some_0
}

/// The position of the first template attaining the lowest stored count:
/// scanning in declaration order, a template displaces the running best only
/// with a strictly lower count.
pub open spec fn min_used_index(u: Seq<(Seq<char>, int)>, id: Seq<char>, ts: Seq<Seq<char>>) -> int
    decreases ts.len(),
{
    if ts.len() <= 1 {
        0
    } else {
        let m = min_used_index(u, id, ts.drop_last());
        if count_of(u, id, ts.last()) < count_of(u, id, ts[m]) {
            ts.len() - 1
        } else {
            m
        }
    }
}

proof fn lemma_min_used_index_in_range(
    u: Seq<(Seq<char>, int)>,
    id: Seq<char>,
    ts: Seq<Seq<char>>,
)
    requires
        ts.len() > 0,
    ensures
        0 <= min_used_index(u, id, ts) < ts.len(),
    decreases ts.len(),
{
    if ts.len() > 1 {
        lemma_min_used_index_in_range(u, id, ts.drop_last());
    }
}

/// What one selection does: nothing selectable from an empty template list;
/// otherwise the first never-used template, entered with count zero, or
/// failing that the first template of lowest count; either way the chosen
/// template's count then grows by one use.
pub open spec fn select_outcome(
    u: Seq<(Seq<char>, int)>,
    id: Seq<char>,
    ts: Seq<Seq<char>>,
) -> Option<(int, Seq<(Seq<char>, int)>)> {
    if ts.len() == 0 {
        None
    } else {
        match first_unused(u, id, ts) {
            Some(j) => Some(
                (j, usage_bump(u.push((sel_key(id, ts[j]), 0)), sel_key(id, ts[j]))),
            ),
            None => {
                let j = min_used_index(u, id, ts);
                Some((j, usage_bump(u, sel_key(id, ts[j]))))
            },
        }
    }
}

/// Joins `id` and `t` into a selection key.
fn make_key(id: &str, t: &String) -> (r: String)
    ensures
        r@ == sel_key(id@, t@),
{
    let mut k = String::new();
    k.append(id);
    k.append(t.as_str());
    proof {
        assert(k@ =~= id@ + t@);
    }
    k
}

/// The position of the first pair recorded under `k`, if any.
fn lookup_pos(usage: &Vec<(String, usize)>, k: &String) -> (r: Option<usize>)
    ensures
        match r {
            Some(p) => p < usage@.len() && usage@[p as int].0@ == k@ && (forall|j: int|
                0 <= j < p ==> (#[trigger] usage@[j]).0@ != k@) && usage_lookup(
                usage_view(usage@),
                k@,
            ) == Some(usage@[p as int].1 as int),
            None => usage_lookup(usage_view(usage@), k@) is None,
        },
{
    let ghost uv = usage_view(usage@);
    let mut i: usize = 0;
    while i < usage.len()
        invariant
            i <= usage.len(),
            uv == usage_view(usage@),
            uv.len() == usage@.len(),
            forall|j: int| 0 <= j < i ==> (#[trigger] usage@[j]).0@ != k@,
        decreases usage@.len() - i,
    {
        if usage[i].0.eq(k) {
            proof {
                assert(forall|j: int| 0 <= j < i ==> (#[trigger] uv[j]).0 != k@);
                assert(uv[i as int].0 == usage@[i as int].0@);
                lemma_usage_lookup_at(uv, k@, i as int);
            }
            return Some(i);
        }
        i = i + 1;
    }
    proof {
        assert(forall|j: int| 0 <= j < uv.len() ==> (#[trigger] uv[j]).0 != k@);
    }
    proof {
        lemma_usage_lookup_none(uv, k@);
    }
    None
}

/// Raises by one use the count stored at `p`, which must hold `k` first.
fn bump_at(usage: &mut Vec<(String, usize)>, k: String, p: usize)
    requires
        p < old(usage)@.len(),
        old(usage)@[p as int].0@ == k@,
        forall|j: int| 0 <= j < p ==> (#[trigger] old(usage)@[j]).0@ != k@,
    ensures
        usage_view(final(usage)@) == usage_bump(usage_view(old(usage)@), k@),
{
    let ghost uv = usage_view(old(usage)@);
    let v = usage[p].1;
    let nv = if v < usize::MAX {
        v + 1
    } else {
        v
    };
    usage[p] = (k, nv);
    proof {
        assert(forall|j: int| 0 <= j < p ==> (#[trigger] uv[j]).0 != uv[p as int].0);
        lemma_usage_bump_at(uv, uv[p as int].0, p as int);
        assert(usage_view(usage@) =~= uv.update(p as int, (uv[p as int].0, bump_val(
            uv[p as int].1,
        ))));
    }
}

/// Selects a reassembly template for the decomposition rule source `id`:
/// the first template never yet counted under this rule wins outright and
/// enters the record; otherwise the template with the lowest count wins,
/// declaration order breaking ties. The chosen template's count grows by one
/// use. Only an empty template list selects nothing.
pub fn select_template(usage: &mut Vec<(String, usize)>, id: &str, rules: &Vec<String>) -> (r:
    Option<String>)
    ensures
        ({
            let sel = select_outcome(usage_view(old(usage)@), id@, rules.deep_view());
            &&& (r is Some) == (sel is Some)
            &&& (r is Some) == (rules@.len() > 0)
            &&& (match sel {
                Some(pair) => r matches Some(s) && s@ == rules.deep_view()[pair.0] && usage_view(
                    final(usage)@,
                ) == pair.1,
                None => usage_view(final(usage)@) == usage_view(old(usage)@),
            })
        }),
{
    let ghost u0 = usage_view(old(usage)@);
    let ghost tv = rules.deep_view();
    let mut best: usize = 0;
    let mut have_best = false;
    let mut count: usize = 0;
    let mut fresh = false;
    let mut i: usize = 0;
    while i < rules.len() && !fresh
        invariant
            i <= rules.len(),
            u0 == usage_view(usage@),
            tv == rules.deep_view(),
            tv.len() == rules@.len(),
            !fresh ==> forall|j: int|
                0 <= j < i ==> usage_lookup(u0, sel_key(id@, #[trigger] tv[j])) is Some,
            have_best || i == 0 || fresh,
            !fresh && have_best ==> 0 <= best < i && i > 0 && count == count_of(
                u0,
                id@,
                tv[best as int],
            ) && best == min_used_index(u0, id@, tv.take(i as int)),
            fresh ==> 0 < i <= rules@.len() && best == i - 1 && usage_lookup(
                u0,
                sel_key(id@, tv[i - 1]),
            ) is None && (forall|j: int|
                0 <= j < i - 1 ==> usage_lookup(u0, sel_key(id@, #[trigger] tv[j])) is Some),
        decreases rules@.len() - i,
    {
        let key = make_key(id, &rules[i]);
        proof {
            assert(tv[i as int] == rules@[i as int]@);
            assert(key@ == sel_key(id@, tv[i as int]));
        }
        match lookup_pos(usage, &key) {
            Some(p) => {
                let usage_count = usage[p].1;
                proof {
                    assert(usage_lookup(u0, sel_key(id@, tv[i as int])) == Some(
                        usage@[p as int].1 as int,
                    ));
                }
                if !have_best || usage_count < count {
                    best = i;
                    count = usage_count;
                    have_best = true;
                }
            },
            None => {
                best = i;
                fresh = true;
            },
        }
        i = i + 1;
        proof {
            if !fresh {
                assert(tv.take(i as int).drop_last() =~~= tv.take(i - 1));
                assert(tv.take(i as int).last() == tv[i - 1]);
                if i > 1 {
                    lemma_min_used_index_in_range(u0, id@, tv.take(i - 1));
                }
            }
        }
    }
    if !have_best && !fresh {
        proof {
            assert(rules@.len() == 0);
            assert(select_outcome(u0, id@, tv) is None);
        }
        return None;
    }
    let chosen = rules[best].clone();
    let key = make_key(id, &chosen);
    proof {
        assert(tv[best as int] == rules@[best as int]@);
        assert(chosen@ == tv[best as int]);
        assert(key@ == sel_key(id@, tv[best as int]));
    }
    if fresh {
        proof {
            lemma_first_unused_at(u0, id@, tv, best as int);
        }
        usage.push((key.clone(), 0));
        proof {
            assert(usage_view(usage@) =~= u0.push((sel_key(id@, tv[best as int]), 0)));
            assert(forall|j: int|
                0 <= j < u0.len() ==> #[trigger] usage_view(usage@)[j] == u0[j]);
        }
        let p = match lookup_pos(usage, &key) {
            Some(p) => p,
            None => {
                proof {
                    let uv = usage_view(usage@);
                    lemma_usage_lookup_none_all(uv, key@);
                    assert(uv[uv.len() - 1].0 == key@);
                    assert(false);
                }
                0
            },
        };
        bump_at(usage, key, p);
        proof {
            assert(usage_view(usage@) == usage_bump(
                u0.push((sel_key(id@, tv[best as int]), 0)),
                sel_key(id@, tv[best as int]),
            ));
        }
        Some(chosen)
    } else {
        proof {
            lemma_first_unused_none(u0, id@, tv);
            assert(tv.take(tv.len() as int) =~~= tv);
            assert(best == min_used_index(u0, id@, tv));
        }
        let p = match lookup_pos(usage, &key) {
            Some(p) => p,
            None => {
                proof {
                    assert(usage_lookup(u0, sel_key(id@, tv[best as int])) is Some);
                    assert(false);
                }
                0
            },
        };
        bump_at(usage, key, p);
        Some(chosen)
    }
}

} // verus!
