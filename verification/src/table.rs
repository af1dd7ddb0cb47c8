//! The two side tables of a document: the eagerly decoded key-to-value
//! table and the key-to-forest-index table, each an association list with
//! pairwise distinct keys, looked up by the decoded characters of the key.

use vstd::prelude::*;
use vstd::string::StringExecFns;

use crate::utils::str_eq;

verus! {

// ---------------------------------------------------------------------------
// The key-to-value table
// ---------------------------------------------------------------------------

/// The value bound to a key, later entries winning.
pub open spec fn s_lookup(m: Seq<(String, String)>, k: Seq<char>) -> Option<Seq<char>>
    decreases m.len(),
{
    if m.len() == 0 {
        None
    } else if m.last().0@ == k {
        Some(m.last().1@)
    } else {
        s_lookup(m.drop_last(), k)
    }
}

/// The keys of the table are pairwise distinct.
pub open spec fn s_distinct(m: Seq<(String, String)>) -> bool {
    forall|i: int, j: int| 0 <= i < j < m.len() ==> (#[trigger] m[i]).0@ != (#[trigger] m[j]).0@
}

/// An entry's key finds that entry's value.
proof fn lemma_s_found(m: Seq<(String, String)>, i: int, k: Seq<char>)
    requires
        s_distinct(m),
        0 <= i < m.len(),
        m[i].0@ == k,
    ensures
        s_lookup(m, k) == Some(m[i].1@),
    decreases m.len(),
{
    if i == m.len() - 1 {
    } else {
        lemma_s_found(m.drop_last(), i, k);
    }
}

/// A key no entry holds finds nothing.
proof fn lemma_s_absent(m: Seq<(String, String)>, k: Seq<char>)
    requires
        forall|i: int| 0 <= i < m.len() ==> (#[trigger] m[i]).0@ != k,
    ensures
        s_lookup(m, k) is None,
    decreases m.len(),
{
    if m.len() > 0 {
        lemma_s_absent(m.drop_last(), k);
    }
}

/// Replacing the value of one entry changes exactly that key's binding.
proof fn lemma_s_update(m: Seq<(String, String)>, i: int, e: (String, String))
    requires
        s_distinct(m),
        0 <= i < m.len(),
        e.0@ == m[i].0@,
    ensures
        s_distinct(m.update(i, e)),
        forall|k: Seq<char>|
            #[trigger] s_lookup(m.update(i, e), k) == (if k == e.0@ {
                Some(e.1@)
            } else {
                s_lookup(m, k)
            }),
    decreases m.len(),
{
    let m2 = m.update(i, e);
    assert forall|k: Seq<char>| true implies #[trigger] s_lookup(m2, k) == (if k == e.0@ {
        Some(e.1@)
    } else {
        s_lookup(m, k)
    }) by {
        if i == m.len() - 1 {
            assert(m2.last() == e);
            assert(m2.drop_last() =~= m.drop_last());
            if k == e.0@ {
                assert(s_lookup(m2, k) == Some(e.1@));
            } else {
                assert(s_lookup(m2, k) == s_lookup(m2.drop_last(), k));
                assert(s_lookup(m, k) == s_lookup(m.drop_last(), k));
            }
        } else {
            assert(m.drop_last()[i] == m[i]);
            lemma_s_update(m.drop_last(), i, e);
            assert(m2.drop_last() =~= m.drop_last().update(i, e));
            assert(m2.last() == m.last());
            assert(m.last().0@ != e.0@);
            if m.last().0@ == k {
                assert(s_lookup(m2, k) == Some(m.last().1@));
                assert(s_lookup(m, k) == Some(m.last().1@));
            } else {
                assert(s_lookup(m2, k) == s_lookup(m.drop_last().update(i, e), k));
                assert(s_lookup(m, k) == s_lookup(m.drop_last(), k));
            }
        }
    }
}

/// Removing one entry removes exactly that key's binding.
proof fn lemma_s_remove(m: Seq<(String, String)>, i: int)
    requires
        s_distinct(m),
        0 <= i < m.len(),
    ensures
        s_distinct(m.remove(i)),
        s_lookup(m.remove(i), m[i].0@) is None,
        forall|k: Seq<char>|
            k != m[i].0@ ==> #[trigger] s_lookup(m.remove(i), k) == s_lookup(m, k),
    decreases m.len(),
{
    let m2 = m.remove(i);
    assert forall|a: int, b: int| 0 <= a < b < m2.len() implies (#[trigger] m2[a]).0@ != (
    #[trigger] m2[b]).0@ by {
        assert(m2[a] == (if a < i {
            m[a]
        } else {
            m[a + 1]
        }));
        assert(m2[b] == (if b < i {
            m[b]
        } else {
            m[b + 1]
        }));
    }
    assert forall|j: int| 0 <= j < m2.len() implies (#[trigger] m2[j]).0@ != m[i].0@ by {
        assert(m2[j] == (if j < i {
            m[j]
        } else {
            m[j + 1]
        }));
    }
    lemma_s_absent(m2, m[i].0@);
    assert forall|k: Seq<char>| k != m[i].0@ implies #[trigger] s_lookup(m2, k) == s_lookup(
        m,
        k,
    ) by {
        if i == m.len() - 1 {
            assert(m2 =~= m.drop_last());
            assert(m.last().0@ == m[i].0@);
            assert(s_lookup(m, k) == s_lookup(m.drop_last(), k));
        } else {
            assert(m.drop_last()[i] == m[i]);
            lemma_s_remove(m.drop_last(), i);
            assert(m2.drop_last() =~= m.drop_last().remove(i));
            assert(m2.last() == m.last());
            if m.last().0@ == k {
                assert(s_lookup(m2, k) == Some(m.last().1@));
                assert(s_lookup(m, k) == Some(m.last().1@));
            } else {
                assert(s_lookup(m2, k) == s_lookup(m.drop_last().remove(i), k));
                assert(s_lookup(m, k) == s_lookup(m.drop_last(), k));
            }
        }
    }
}

/// Looks a key up in the table.
pub fn tbl_get<'a>(m: &'a Vec<(String, String)>, k: &str) -> (r: Option<&'a String>)
    requires
        s_distinct(m@),
    ensures
        match r {
            Some(v) => s_lookup(m@, k@) == Some(v@),
            None => s_lookup(m@, k@) is None,
        },
{
    let mut i: usize = 0;
    while i < m.len()
        invariant
            s_distinct(m@),
            i <= m@.len(),
            forall|j: int| 0 <= j < i ==> (#[trigger] m@[j]).0@ != k@,
        decreases m@.len() - i,
    {
        if str_eq(m[i].0.as_str(), k) {
            proof {
                lemma_s_found(m@, i as int, k@);
            }
            return Some(&m[i].1);
        }
        i = i + 1;
    }
    proof {
        lemma_s_absent(m@, k@);
    }
    None
}

/// Binds a key to a value, replacing an earlier binding of the same key.
pub fn tbl_set(m: &mut Vec<(String, String)>, k: &str, v: &str)
    requires
        s_distinct(old(m)@),
    ensures
        s_distinct(final(m)@),
        forall|k2: Seq<char>|
            #[trigger] s_lookup(final(m)@, k2) == (if k2 == k@ {
                Some(v@)
            } else {
                s_lookup(old(m)@, k2)
            }),
{
    let mut i: usize = 0;
    while i < m.len()
        invariant
            s_distinct(m@),
            i <= m@.len(),
            *m == *old(m),
            forall|j: int| 0 <= j < i ==> (#[trigger] m@[j]).0@ != k@,
        decreases m@.len() - i,
    {
        if str_eq(m[i].0.as_str(), k) {
            let key_copy = m[i].0.clone();
            let e = (key_copy, String::from_str(v));
            proof {
                lemma_s_update(m@, i as int, e);
            }
            m[i] = e;
            return ;
        }
        i = i + 1;
    }
    proof {
        lemma_s_absent(m@, k@);
    }
    m.push((String::from_str(k), String::from_str(v)));
    proof {
        assert(m@.drop_last() =~= old(m)@);
        assert(forall|j: int|
            0 <= j < m@.len() - 1 ==> (#[trigger] m@[j]) == old(m)@[j]);
    }
}

/// A found binding comes from some entry of the table.
pub proof fn lemma_i_lookup_entry(m: Seq<(String, usize)>, k: Seq<char>)
    ensures
        i_lookup(m, k) matches Some(v) ==> exists|j: int|
            0 <= j < m.len() && (#[trigger] m[j]).0@ == k && m[j].1 as int == v,
    decreases m.len(),
{
    if m.len() > 0 {
        if m.last().0@ == k {
            assert(m[m.len() - 1].0@ == k);
        } else {
            lemma_i_lookup_entry(m.drop_last(), k);
        }
    }
}

/// Removes a key's binding, if it has one.
pub fn tbl_remove(m: &mut Vec<(String, String)>, k: &str)
    requires
        s_distinct(old(m)@),
    ensures
        s_distinct(final(m)@),
        s_lookup(final(m)@, k@) is None,
        forall|k2: Seq<char>|
            k2 != k@ ==> #[trigger] s_lookup(final(m)@, k2) == s_lookup(old(m)@, k2),
        s_lookup(old(m)@, k@) is None ==> *final(m) == *old(m),
{
    let mut i: usize = 0;
    while i < m.len()
        invariant
            s_distinct(m@),
            i <= m@.len(),
            *m == *old(m),
            forall|j: int| 0 <= j < i ==> (#[trigger] m@[j]).0@ != k@,
        decreases m@.len() - i,
    {
        if str_eq(m[i].0.as_str(), k) {
            proof {
                lemma_s_found(m@, i as int, k@);
                lemma_s_remove(m@, i as int);
            }
            m.remove(i);
            return ;
        }
        i = i + 1;
    }
    proof {
        lemma_s_absent(m@, k@);
    }
}

// ---------------------------------------------------------------------------
// The key-to-forest-index table
// ---------------------------------------------------------------------------

/// The forest index bound to a key, later entries winning.
pub open spec fn i_lookup(m: Seq<(String, usize)>, k: Seq<char>) -> Option<int>
    decreases m.len(),
{
    if m.len() == 0 {
        None
    } else if m.last().0@ == k {
        Some(m.last().1 as int)
    } else {
        i_lookup(m.drop_last(), k)
    }
}

/// The keys of the table are pairwise distinct.
pub open spec fn i_distinct(m: Seq<(String, usize)>) -> bool {
    forall|i: int, j: int| 0 <= i < j < m.len() ==> (#[trigger] m[i]).0@ != (#[trigger] m[j]).0@
}

/// An entry's key finds that entry's index.
proof fn lemma_i_found(m: Seq<(String, usize)>, i: int, k: Seq<char>)
    requires
        i_distinct(m),
        0 <= i < m.len(),
        m[i].0@ == k,
    ensures
        i_lookup(m, k) == Some(m[i].1 as int),
    decreases m.len(),
{
    if i == m.len() - 1 {
    } else {
        lemma_i_found(m.drop_last(), i, k);
    }
}

/// A key no entry holds finds nothing.
proof fn lemma_i_absent(m: Seq<(String, usize)>, k: Seq<char>)
    requires
        forall|i: int| 0 <= i < m.len() ==> (#[trigger] m[i]).0@ != k,
    ensures
        i_lookup(m, k) is None,
    decreases m.len(),
{
    if m.len() > 0 {
        lemma_i_absent(m.drop_last(), k);
    }
}

/// Replacing the index of one entry changes exactly that key's binding.
proof fn lemma_i_update(m: Seq<(String, usize)>, i: int, e: (String, usize))
    requires
        i_distinct(m),
        0 <= i < m.len(),
        e.0@ == m[i].0@,
    ensures
        i_distinct(m.update(i, e)),
        forall|k: Seq<char>|
            #[trigger] i_lookup(m.update(i, e), k) == (if k == e.0@ {
                Some(e.1 as int)
            } else {
                i_lookup(m, k)
            }),
    decreases m.len(),
{
    let m2 = m.update(i, e);
    assert forall|k: Seq<char>| true implies #[trigger] i_lookup(m2, k) == (if k == e.0@ {
        Some(e.1 as int)
    } else {
        i_lookup(m, k)
    }) by {
        if i == m.len() - 1 {
            assert(m2.last() == e);
            assert(m2.drop_last() =~= m.drop_last());
            if k == e.0@ {
                assert(i_lookup(m2, k) == Some(e.1 as int));
            } else {
                assert(i_lookup(m2, k) == i_lookup(m2.drop_last(), k));
                assert(i_lookup(m, k) == i_lookup(m.drop_last(), k));
            }
        } else {
            assert(m.drop_last()[i] == m[i]);
            lemma_i_update(m.drop_last(), i, e);
            assert(m2.drop_last() =~= m.drop_last().update(i, e));
            assert(m2.last() == m.last());
            assert(m.last().0@ != e.0@);
            if m.last().0@ == k {
                assert(i_lookup(m2, k) == Some(m.last().1 as int));
                assert(i_lookup(m, k) == Some(m.last().1 as int));
            } else {
                assert(i_lookup(m2, k) == i_lookup(m.drop_last().update(i, e), k));
                assert(i_lookup(m, k) == i_lookup(m.drop_last(), k));
            }
        }
    }
}

/// Looks a key up in the index table.
pub fn idx_get(m: &Vec<(String, usize)>, k: &str) -> (r: Option<usize>)
    requires
        i_distinct(m@),
    ensures
        match r {
            Some(v) => i_lookup(m@, k@) == Some(v as int),
            None => i_lookup(m@, k@) is None,
        },
{
    let mut i: usize = 0;
    while i < m.len()
        invariant
            i_distinct(m@),
            i <= m@.len(),
            forall|j: int| 0 <= j < i ==> (#[trigger] m@[j]).0@ != k@,
        decreases m@.len() - i,
    {
        if str_eq(m[i].0.as_str(), k) {
            proof {
                lemma_i_found(m@, i as int, k@);
            }
            return Some(m[i].1);
        }
        i = i + 1;
    }
    proof {
        lemma_i_absent(m@, k@);
    }
    None
}

/// Binds a key to a forest index, replacing an earlier binding of the same
/// key.
pub fn idx_set(m: &mut Vec<(String, usize)>, k: &str, v: usize)
    requires
        i_distinct(old(m)@),
    ensures
        i_distinct(final(m)@),
        forall|k2: Seq<char>|
            #[trigger] i_lookup(final(m)@, k2) == (if k2 == k@ {
                Some(v as int)
            } else {
                i_lookup(old(m)@, k2)
            }),
        final(m)@.len() >= old(m)@.len(),
        forall|a: int|
            0 <= a < final(m)@.len() ==> ((a < old(m)@.len() && #[trigger] final(m)@[a] == old(
                m,
            )@[a]) || (final(m)@[a].0@ == k@ && final(m)@[a].1 == v)),
{
    let mut i: usize = 0;
    while i < m.len()
        invariant
            i_distinct(m@),
            i <= m@.len(),
            *m == *old(m),
            forall|j: int| 0 <= j < i ==> (#[trigger] m@[j]).0@ != k@,
        decreases m@.len() - i,
    {
        if str_eq(m[i].0.as_str(), k) {
            let key_copy = m[i].0.clone();
            let e = (key_copy, v);
            proof {
                lemma_i_update(m@, i as int, e);
            }
            m[i] = e;
            return ;
        }
        i = i + 1;
    }
    proof {
        lemma_i_absent(m@, k@);
    }
    m.push((String::from_str(k), v));
    proof {
        assert(m@.drop_last() =~= old(m)@);
        assert(forall|j: int|
            0 <= j < m@.len() - 1 ==> (#[trigger] m@[j]) == old(m)@[j]);
    }
}

/// A forest index after the node at `j` has been removed.
pub open spec fn shift_idx(v: int, j: int) -> int {
    if v > j {
        v - 1
    } else {
        v
    }
}

/// The index table after removing the key `krm` and the forest node at `j`:
/// the binding each remaining key would get.
pub open spec fn rs_lookup(
    m: Seq<(String, usize)>,
    krm: Seq<char>,
    j: int,
    k: Seq<char>,
) -> Option<int>
    decreases m.len(),
{
    if m.len() == 0 {
        None
    } else if m.last().0@ == krm {
        rs_lookup(m.drop_last(), krm, j, k)
    } else if m.last().0@ == k {
        Some(shift_idx(m.last().1 as int, j))
    } else {
        rs_lookup(m.drop_last(), krm, j, k)
    }
}

/// Removing a key and shifting indices rewrites each binding as expected.
proof fn lemma_rs_lookup(m: Seq<(String, usize)>, krm: Seq<char>, j: int, k: Seq<char>)
    ensures
        rs_lookup(m, krm, j, k) == (if k == krm {
            None
        } else {
            match i_lookup(m, k) {
                Some(v) => Some(shift_idx(v, j)),
                None => None,
            }
        }),
    decreases m.len(),
{
    if m.len() > 0 {
        lemma_rs_lookup(m.drop_last(), krm, j, k);
    }
}

/// Removes a key's binding and renumbers the other bindings past the
/// removed forest position.
pub fn idx_remove_shift(m: &mut Vec<(String, usize)>, k: &str, j: usize)
    requires
        i_distinct(old(m)@),
    ensures
        i_distinct(final(m)@),
        i_lookup(final(m)@, k@) is None,
        forall|k2: Seq<char>|
            k2 != k@ ==> #[trigger] i_lookup(final(m)@, k2) == (match i_lookup(old(m)@, k2) {
                Some(v) => Some(shift_idx(v, j as int)),
                None => None,
            }),
        forall|a: int|
            0 <= a < final(m)@.len() ==> exists|b: int|
                0 <= b < old(m)@.len() && (#[trigger] final(m)@[a]).0@ == old(m)@[b].0@ && old(
                    m,
                )@[b].0@ != k@ && final(m)@[a].1 as int == shift_idx(
                    old(m)@[b].1 as int,
                    j as int,
                ),
{
    let ghost orig = m@;
    let mut out: Vec<(String, usize)> = Vec::new();
    let mut i: usize = 0;
    proof {
        assert(orig.subrange(0, 0) =~= Seq::<(String, usize)>::empty());
    }
    while i < m.len()
        invariant
            i_distinct(orig),
            m@ == orig,
            i <= orig.len(),
            i_distinct(out@),
            forall|a: int|
                0 <= a < out@.len() ==> exists|b: int|
                    0 <= b < i && (#[trigger] out@[a]).0@ == orig[b].0@ && orig[b].0@ != k@
                        && out@[a].1 as int == shift_idx(orig[b].1 as int, j as int),
            forall|k2: Seq<char>|
                #[trigger] i_lookup(out@, k2) == rs_lookup(
                    orig.subrange(0, i as int),
                    k@,
                    j as int,
                    k2,
                ),
        decreases orig.len() - i,
    {
        proof {
            assert(orig.subrange(0, i + 1).drop_last() =~= orig.subrange(0, i as int));
            assert(orig.subrange(0, i + 1).last() == orig[i as int]);
        }
        if !str_eq(m[i].0.as_str(), k) {
            let key_copy = m[i].0.clone();
            let idx = m[i].1;
            let shifted = if idx > j {
                idx - 1
            } else {
                idx
            };
            proof {
                assert forall|a: int| 0 <= a < out@.len() implies (#[trigger] out@[a]).0@
                    != orig[i as int].0@ by {
                    let b = choose|b: int|
                        0 <= b < i && (#[trigger] out@[a]).0@ == orig[b].0@;
                    assert(orig[b].0@ != orig[i as int].0@);
                }
            }
            let ghost out_before = out@;
            out.push((key_copy, shifted));
            proof {
                assert(out@.drop_last() =~= out_before);
                assert(out@.last().0@ == orig[i as int].0@);
                assert forall|k2: Seq<char>| true implies #[trigger] i_lookup(out@, k2)
                    == rs_lookup(orig.subrange(0, i + 1), k@, j as int, k2) by {
                    if k2 != orig[i as int].0@ {
                        assert(i_lookup(out@, k2) == i_lookup(out_before, k2));
                    }
                }
            }
        }
        i = i + 1;
    }
    proof {
        assert(orig.subrange(0, orig.len() as int) =~= orig);
        assert forall|k2: Seq<char>| true implies #[trigger] i_lookup(out@, k2) == rs_lookup(
            orig,
            k@,
            j as int,
            k2,
        ) by {}
        assert forall|k2: Seq<char>| true implies #[trigger] rs_lookup(orig, k@, j as int, k2)
            == (if k2 == k@ {
            None
        } else {
            match i_lookup(orig, k2) {
                Some(v) => Some(shift_idx(v, j as int)),
                None => None,
            }
        }) by {
            lemma_rs_lookup(orig, k@, j as int, k2);
        }
    }
    *m = out;
}

} // verus!
