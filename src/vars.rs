//! Variable bindings for template rendering: a list of `(name, value)` pairs
//! in which a later binding of a name hides the earlier ones.
use crate::text::str_eq;
use vstd::prelude::*;

verus! {

/// The value bound to `key`: the last binding of that name, if any.
pub open spec fn var_lookup(v: Seq<(String, String)>, key: Seq<char>) -> Option<Seq<char>>
    decreases v.len(),
{
    if v.len() == 0 {
        None
    } else if v.last().0@ == key {
        Some(v.last().1@)
    } else {
        var_lookup(v.drop_last(), key)
    }
}

pub fn get_var<'a>(v: &'a Vec<(String, String)>, key: &str) -> (r: Option<&'a String>)
    ensures
        match r {
            Some(s) => var_lookup(v@, key@) == Some(s@),
            None => var_lookup(v@, key@) is None,
        },
{
    let mut i: usize = v.len();
    assert(v@.take(i as int) =~= v@);
    while i > 0
        invariant
            i <= v.len(),
            var_lookup(v@, key@) == var_lookup(v@.take(i as int), key@),
        decreases i,
    {
        let ghost pre = v@.take(i as int);
        assert(pre.drop_last() =~= v@.take(i - 1));
        assert(pre.last() == v@[i - 1]);
        if str_eq(v[i - 1].0.as_str(), key) {
            return Some(&v[i - 1].1);
        }
        i -= 1;
    }
    None
}

/// Binds `key` to `val`, hiding any earlier binding of `key`.
pub fn set_var(v: &mut Vec<(String, String)>, key: String, val: String)
    ensures
        final(v)@ == old(v)@.push((key, val)),
        forall|k: Seq<char>| #[trigger] var_lookup(final(v)@, k)
            == if k == key@ { Some(val@) } else { var_lookup(old(v)@, k) },
{
    v.push((key, val));
    assert forall|k: Seq<char>| #[trigger] var_lookup(v@, k)
        == if k == key@ { Some(val@) } else { var_lookup(old(v)@, k) } by {
        assert(v@.drop_last() =~= old(v)@);
    }
}

/// No two bindings of `v` have the same name.
pub open spec fn distinct_names(v: Seq<(String, String)>) -> bool {
    forall|i: int, j: int| 0 <= i < j < v.len() ==> (#[trigger] v[i]).0@ != (#[trigger] v[j]).0@
}

/// Some binding of `v` has the name `key`.
pub open spec fn binds(v: Seq<(String, String)>, key: Seq<char>) -> bool {
    exists|j: int| 0 <= j < v.len() && (#[trigger] v[j]).0@ == key
}

/// The binding at `j` is the last of its name: its value is the one looked up.
proof fn lemma_last_binding(v: Seq<(String, String)>, j: int)
    requires
        0 <= j < v.len(),
        forall|m: int| j < m < v.len() ==> (#[trigger] v[m]).0@ != v[j].0@,
    ensures
        var_lookup(v, v[j].0@) == Some(v[j].1@),
    decreases v.len(),
{
    if j < v.len() - 1 {
        assert(v.last() == v[v.len() - 1]);
        lemma_last_binding(v.drop_last(), j);
    }
}

proof fn lemma_lookup_bound(v: Seq<(String, String)>, key: Seq<char>)
    ensures
        var_lookup(v, key) is Some <==> binds(v, key),
    decreases v.len(),
{
    if v.len() > 0 {
        lemma_lookup_bound(v.drop_last(), key);
        if binds(v, key) && v.last().0@ != key {
            let j = choose|j: int| 0 <= j < v.len() && (#[trigger] v[j]).0@ == key;
            assert(v.drop_last()[j] == v[j]);
        }
        if binds(v.drop_last(), key) {
            let j = choose|j: int| 0 <= j < v.drop_last().len() && (#[trigger] v.drop_last()[j]).0@ == key;
            assert(v[j] == v.drop_last()[j]);
        }
        if v.last().0@ == key {
            assert(v[v.len() - 1] == v.last());
        }
    }
}

/// One binding per name, each with the value that name has in `v`.
pub fn distinct_bindings(v: &Vec<(String, String)>) -> (r: Vec<(String, String)>)
    ensures
        distinct_names(r@),
        forall|key: Seq<char>| #[trigger] binds(r@, key) <==> binds(v@, key),
        forall|j: int| 0 <= j < r.len() ==> var_lookup(v@, (#[trigger] r@[j]).0@) == Some(r@[j].1@),
        forall|key: Seq<char>| #[trigger] var_lookup(r@, key) == var_lookup(v@, key),
{
    let mut out: Vec<(String, String)> = Vec::new();
    let mut i: usize = v.len();
    while i > 0
        invariant
            i <= v.len(),
            distinct_names(out@),
            forall|key: Seq<char>| #[trigger] binds(out@, key) <==> binds(v@.skip(i as int), key),
            forall|j: int| 0 <= j < out.len() ==> var_lookup(v@, (#[trigger] out@[j]).0@) == Some(out@[j].1@),
        decreases i,
    {
        let ghost before = out@;
        let ghost idx = (i - 1) as int;
        let key = &v[i - 1].0;
        let mut seen = false;
        let mut m: usize = 0;
        while m < out.len()
            invariant
                m <= out.len(),
                out@ == before,
                seen <==> exists|q: int| 0 <= q < m && (#[trigger] out@[q]).0@ == key@,
            decreases out.len() - m,
        {
            if str_eq(out[m].0.as_str(), key.as_str()) {
                seen = true;
            }
            m += 1;
        }
        proof {
            assert(v@.skip(idx) =~= seq![v@[idx]] + v@.skip(i as int));
            assert forall|key2: Seq<char>| binds(v@.skip(idx), key2) <==> (key2 == key@ || binds(v@.skip(i as int), key2)) by {
                if binds(v@.skip(idx), key2) {
                    let j = choose|j: int| 0 <= j < v@.skip(idx).len() && (#[trigger] v@.skip(idx)[j]).0@ == key2;
                    if j > 0 {
                        assert(v@.skip(i as int)[j - 1] == v@.skip(idx)[j]);
                    }
                }
                if binds(v@.skip(i as int), key2) {
                    let j = choose|j: int| 0 <= j < v@.skip(i as int).len() && (#[trigger] v@.skip(i as int)[j]).0@ == key2;
                    assert(v@.skip(idx)[j + 1] == v@.skip(i as int)[j]);
                }
                if key2 == key@ {
                    assert(v@.skip(idx)[0] == v@[idx]);
                }
            }
        }
        if !seen {
            proof {
                assert(!binds(out@, key@));
                assert(!binds(v@.skip(i as int), key@));
                assert forall|q: int| idx < q < v.len() implies (#[trigger] v@[q]).0@ != v@[idx].0@ by {
                    if v@[q].0@ == v@[idx].0@ {
                        assert(v@.skip(i as int)[q - i] == v@[q]);
                    }
                }
                lemma_last_binding(v@, idx);
            }
            out.push((key.clone(), v[i - 1].1.clone()));
            proof {
                assert forall|key2: Seq<char>| #[trigger] binds(out@, key2) <==> binds(v@.skip(idx), key2) by {
                    if binds(out@, key2) {
                        let j = choose|j: int| 0 <= j < out.len() && (#[trigger] out@[j]).0@ == key2;
                        if j < before.len() {
                            assert(binds(before, key2));
                        }
                    }
                    if binds(before, key2) {
                        let j = choose|j: int| 0 <= j < before.len() && (#[trigger] before[j]).0@ == key2;
                        assert(out@[j] == before[j]);
                    }
                    if key2 == key@ {
                        assert(out@[before.len() as int].0@ == key2);
                    }
                }
                assert forall|p: int, q: int| 0 <= p < q < out.len() implies (#[trigger] out@[p]).0@ != (#[trigger] out@[q]).0@ by {
                    if q == before.len() {
                        assert(out@[p] == before[p]);
                        if before[p].0@ == key@ {
                            assert(binds(before, key@));
                        }
                    } else {
                        assert(out@[p] == before[p] && out@[q] == before[q]);
                    }
                }
            }
        } else {
            proof {
                let q = choose|q: int| 0 <= q < out.len() && (#[trigger] out@[q]).0@ == key@;
                assert(binds(before, key@));
            }
        }
        i -= 1;
    }
    assert(v@.skip(0) =~= v@);
    assert forall|key: Seq<char>| #[trigger] var_lookup(out@, key) == var_lookup(v@, key) by {
        lemma_lookup_bound(out@, key);
        lemma_lookup_bound(v@, key);
        if binds(out@, key) {
            let j = choose|j: int| 0 <= j < out.len() && (#[trigger] out@[j]).0@ == key;
            assert forall|m: int| j < m < out.len() implies (#[trigger] out@[m]).0@ != out@[j].0@ by {}
            lemma_last_binding(out@, j);
        }
    }
    out
}

} // verus!
