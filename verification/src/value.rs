//! The output value type and its mathematical model.
//!
//! `Value` is the JSON-shaped tree the conversion produces. Its model `JVal`
//! replaces strings by character sequences and vectors by sequences, so that
//! contracts can be stated over `Seq` directly. Objects are ordered lists of
//! key/value entries; `jeq` compares objects by their keys rather than by
//! entry order, which is how JSON object equality is understood.
use vstd::prelude::*;

verus! {

/// The JSON-shaped output value: null, a string, an object with ordered
/// keys, or an ordered array.
pub enum Value {
    Null,
    Str(String),
    Obj(Vec<(String, Value)>),
    Arr(Vec<Value>),
}

/// The mathematical model of a `Value`.
#[verifier::ext_equal]
pub enum JVal {
    Null,
    Str(Seq<char>),
    Obj(Seq<(Seq<char>, JVal)>),
    Arr(Seq<JVal>),
}

/// Model of an object's entry list.
pub open spec fn entries_view(s: Seq<(String, Value)>) -> Seq<(Seq<char>, JVal)>
    decreases s,
{
    if s.len() == 0 {
        Seq::empty()
    } else {
        seq![(s[0].0@, jval(s[0].1))] + entries_view(s.drop_first())
    }
}

/// Model of an array's element list.
pub open spec fn vals_view(s: Seq<Value>) -> Seq<JVal>
    decreases s,
{
    if s.len() == 0 {
        Seq::empty()
    } else {
        seq![jval(s[0])] + vals_view(s.drop_first())
    }
}

/// The model of one value.
pub open spec fn jval(v: Value) -> JVal
    decreases v,
{
    match v {
        Value::Null => JVal::Null,
        Value::Str(s) => JVal::Str(s@),
        Value::Obj(es) => JVal::Obj(entries_view(es@)),
        Value::Arr(vs) => JVal::Arr(vals_view(vs@)),
    }
}

/// `entries_view` maps the list entry by entry.
pub proof fn lemma_entries_view(s: Seq<(String, Value)>)
    ensures
        entries_view(s).len() == s.len(),
        forall|i: int|
            0 <= i < s.len() ==> #[trigger] entries_view(s)[i] == (s[i].0@, jval(s[i].1)),
    decreases s,
{
    if s.len() > 0 {
        lemma_entries_view(s.drop_first());
    }
}

/// Whether the entry list holds the key (at its first occurrence).
pub open spec fn has_key(m: Seq<(Seq<char>, JVal)>, k: Seq<char>) -> bool
    decreases m,
{
    if m.len() == 0 {
        false
    } else if m[0].0 == k {
        true
    } else {
        has_key(m.drop_first(), k)
    }
}

/// The value under the key's first occurrence, if any.
pub open spec fn entry_get(m: Seq<(Seq<char>, JVal)>, k: Seq<char>) -> Option<JVal>
    decreases m,
{
    if m.len() == 0 {
        Option::None
    } else if m[0].0 == k {
        Option::Some(m[0].1)
    } else {
        entry_get(m.drop_first(), k)
    }
}

/// Replaces the value under the key's first occurrence in place, or appends
/// a new entry at the end when the key is absent.
pub open spec fn entry_set(m: Seq<(Seq<char>, JVal)>, k: Seq<char>, v: JVal) -> Seq<
    (Seq<char>, JVal),
>
    decreases m,
{
    if m.len() == 0 {
        seq![(k, v)]
    } else if m[0].0 == k {
        seq![(k, v)] + m.drop_first()
    } else {
        seq![m[0]] + entry_set(m.drop_first(), k, v)
    }
}

/// Removes the key's first occurrence, if any.
pub open spec fn entry_rm(m: Seq<(Seq<char>, JVal)>, k: Seq<char>) -> Seq<(Seq<char>, JVal)>
    decreases m,
{
    if m.len() == 0 {
        m
    } else if m[0].0 == k {
        m.drop_first()
    } else {
        seq![m[0]] + entry_rm(m.drop_first(), k)
    }
}

/// Setting a key and then reading it gives the new value back; other keys
/// are untouched.
pub proof fn lemma_entry_get_set(m: Seq<(Seq<char>, JVal)>, k: Seq<char>, v: JVal)
    ensures
        entry_get(entry_set(m, k, v), k) == Option::Some(v),
        has_key(entry_set(m, k, v), k),
        forall|k2: Seq<char>|
            k2 != k ==> #[trigger] entry_get(entry_set(m, k, v), k2) == entry_get(m, k2),
    decreases m,
{
    if m.len() > 0 {
        lemma_entry_get_set(m.drop_first(), k, v);
        let r = entry_set(m, k, v);
        if m[0].0 == k {
            assert(r[0] == (k, v));
            assert(r.drop_first() =~= m.drop_first());
        } else {
            assert(r[0] == m[0]);
            assert(r.drop_first() =~= entry_set(m.drop_first(), k, v));
        }
        assert forall|k2: Seq<char>| k2 != k implies #[trigger] entry_get(r, k2) == entry_get(
            m,
            k2,
        ) by {
            if m[0].0 == k {
                assert(entry_get(r, k2) == entry_get(m.drop_first(), k2));
                assert(entry_get(m, k2) == entry_get(m.drop_first(), k2));
            } else {
                if m[0].0 == k2 {
                    assert(entry_get(r, k2) == Option::Some(m[0].1));
                } else {
                    assert(entry_get(r, k2) == entry_get(entry_set(m.drop_first(), k, v), k2));
                }
            }
        }
    } else {
        let r = entry_set(m, k, v);
        assert forall|k2: Seq<char>| k2 != k implies #[trigger] entry_get(r, k2) == entry_get(
            m,
            k2,
        ) by {
            assert(entry_get(r, k2) == entry_get(r.drop_first(), k2));
            assert(r.drop_first().len() == 0);
        }
    }
}

/// Where `i` is the first index holding the key, the list operations agree
/// with indexed reading, updating and removing.
pub proof fn lemma_entry_at_index(m: Seq<(Seq<char>, JVal)>, k: Seq<char>, v: JVal, i: int)
    requires
        0 <= i < m.len(),
        m[i].0 == k,
        forall|j: int| 0 <= j < i ==> m[j].0 != k,
    ensures
        has_key(m, k),
        entry_get(m, k) == Option::Some(m[i].1),
        entry_set(m, k, v) =~= m.update(i, (k, v)),
        entry_rm(m, k) =~= m.remove(i),
    decreases m,
{
    if i == 0 {
        assert(entry_set(m, k, v) =~= m.update(0, (k, v)));
        assert(entry_rm(m, k) =~= m.remove(0));
    } else {
        lemma_entry_at_index(m.drop_first(), k, v, i - 1);
        assert(entry_set(m, k, v) =~= m.update(i, (k, v)));
        assert(entry_rm(m, k) =~= m.remove(i));
    }
}

/// Where no index holds the key, the key is absent: setting appends and
/// removing changes nothing.
pub proof fn lemma_entry_absent(m: Seq<(Seq<char>, JVal)>, k: Seq<char>, v: JVal)
    requires
        forall|j: int| 0 <= j < m.len() ==> m[j].0 != k,
    ensures
        !has_key(m, k),
        entry_get(m, k) == Option::<JVal>::None,
        entry_set(m, k, v) =~= m.push((k, v)),
        entry_rm(m, k) =~= m,
    decreases m,
{
    if m.len() > 0 {
        lemma_entry_absent(m.drop_first(), k, v);
        assert(entry_set(m, k, v) =~= m.push((k, v)));
        assert(entry_rm(m, k) =~= m);
    }
}

/// A key is held exactly when some index holds it.
pub proof fn lemma_has_key(m: Seq<(Seq<char>, JVal)>, k: Seq<char>)
    ensures
        has_key(m, k) <==> exists|i: int| 0 <= i < m.len() && (#[trigger] m[i]).0 == k,
    decreases m,
{
    if m.len() > 0 {
        lemma_has_key(m.drop_first(), k);
        if m[0].0 == k {
            assert(m[0].0 == k);
        } else if has_key(m.drop_first(), k) {
            let i = choose|i: int|
                0 <= i < m.drop_first().len() && (#[trigger] m.drop_first()[i]).0 == k;
            assert(m[i + 1].0 == k);
        } else if exists|i: int| 0 <= i < m.len() && (#[trigger] m[i]).0 == k {
            let i = choose|i: int| 0 <= i < m.len() && (#[trigger] m[i]).0 == k;
            assert(m.drop_first()[i - 1].0 == k);
        }
    }
}

/// Removing a key that reading cannot find changes nothing.
pub proof fn lemma_entry_rm_absent(m: Seq<(Seq<char>, JVal)>, k: Seq<char>)
    requires
        entry_get(m, k) is None,
    ensures
        entry_rm(m, k) =~= m,
    decreases m,
{
    if m.len() > 0 {
        lemma_entry_rm_absent(m.drop_first(), k);
        assert(entry_rm(m, k) =~= m);
    }
}

/// `vals_view` maps the list element by element.
pub proof fn lemma_vals_view(s: Seq<Value>)
    ensures
        vals_view(s).len() == s.len(),
        forall|i: int| 0 <= i < s.len() ==> #[trigger] vals_view(s)[i] == jval(s[i]),
    decreases s,
{
    if s.len() > 0 {
        lemma_vals_view(s.drop_first());
    }
}

/// No key occurs twice in the entry list.
pub open spec fn unique_keys(m: Seq<(Seq<char>, JVal)>) -> bool {
    forall|i: int, j: int| 0 <= i < j < m.len() ==> (#[trigger] m[i]).0 != (#[trigger] m[j]).0
}

/// Every object anywhere in the value has unique keys.
pub open spec fn jwf(v: JVal) -> bool
    decreases v,
{
    match v {
        JVal::Null => true,
        JVal::Str(s) => true,
        JVal::Obj(m) => unique_keys(m) && forall|i: int|
            0 <= i < m.len() ==> jwf((#[trigger] m[i]).1),
        JVal::Arr(vs) => forall|i: int| 0 <= i < vs.len() ==> jwf(#[trigger] vs[i]),
    }
}

/// An entry list whose keys are unique and whose values are well formed.
pub open spec fn entries_wf(m: Seq<(Seq<char>, JVal)>) -> bool {
    unique_keys(m) && forall|i: int| 0 <= i < m.len() ==> jwf((#[trigger] m[i]).1)
}

/// Setting a well-formed value keeps the entry list well formed.
pub proof fn lemma_entry_set_wf(m: Seq<(Seq<char>, JVal)>, k: Seq<char>, v: JVal)
    requires
        entries_wf(m),
        jwf(v),
    ensures
        entries_wf(entry_set(m, k, v)),
    decreases m,
{
    lemma_has_key(m, k);
    if has_key(m, k) {
        let i = choose|i: int| 0 <= i < m.len() && (#[trigger] m[i]).0 == k;
        assert forall|j: int| 0 <= j < i implies (#[trigger] m[j]).0 != k by {
            assert(m[j].0 != m[i].0);
        }
        lemma_entry_at_index(m, k, v, i);
        let r = m.update(i, (k, v));
        assert forall|a: int, b: int| 0 <= a < b < r.len() implies (#[trigger] r[a]).0 != (
        #[trigger] r[b]).0 by {
            assert(m[a].0 != m[b].0);
        }
        assert(entries_wf(r));
    } else {
        lemma_entry_absent_from_has_key(m, k);
        lemma_entry_absent(m, k, v);
        let r = m.push((k, v));
        assert forall|a: int, b: int| 0 <= a < b < r.len() implies (#[trigger] r[a]).0 != (
        #[trigger] r[b]).0 by {
            if b < m.len() {
                assert(m[a].0 != m[b].0);
            } else {
                assert(r[b].0 == k);
                assert(m[a].0 != k);
            }
        }
        assert(entries_wf(r));
    }
}

/// Removing a key keeps the entry list well formed.
pub proof fn lemma_entry_rm_wf(m: Seq<(Seq<char>, JVal)>, k: Seq<char>)
    requires
        entries_wf(m),
    ensures
        entries_wf(entry_rm(m, k)),
{
    lemma_has_key(m, k);
    if has_key(m, k) {
        let i = choose|i: int| 0 <= i < m.len() && (#[trigger] m[i]).0 == k;
        assert forall|j: int| 0 <= j < i implies (#[trigger] m[j]).0 != k by {
            assert(m[j].0 != m[i].0);
        }
        lemma_entry_at_index(m, k, JVal::Null, i);
        let r = m.remove(i);
        assert forall|a: int, b: int| 0 <= a < b < r.len() implies (#[trigger] r[a]).0 != (
        #[trigger] r[b]).0 by {
            let a0 = if a < i {
                a
            } else {
                a + 1
            };
            let b0 = if b < i {
                b
            } else {
                b + 1
            };
            assert(r[a] == m[a0]);
            assert(r[b] == m[b0]);
            assert(m[a0].0 != m[b0].0);
        }
        assert(entries_wf(r));
    } else {
        lemma_entry_absent_from_has_key(m, k);
        lemma_entry_absent(m, k, JVal::Null);
    }
}

/// A key that is not held is held at no index.
pub proof fn lemma_entry_absent_from_has_key(m: Seq<(Seq<char>, JVal)>, k: Seq<char>)
    requires
        !has_key(m, k),
    ensures
        forall|j: int| 0 <= j < m.len() ==> (#[trigger] m[j]).0 != k,
{
    lemma_has_key(m, k);
}

/// The value under the key, or null when the key is absent.
pub open spec fn entry_val(m: Seq<(Seq<char>, JVal)>, k: Seq<char>) -> JVal {
    match entry_get(m, k) {
        Option::Some(v) => v,
        Option::None => JVal::Null,
    }
}

/// JSON equality: arrays compare element by element in order, objects by
/// key regardless of entry order.
pub open spec fn jeq(a: JVal, b: JVal) -> bool
    decreases a,
{
    match (a, b) {
        (JVal::Null, JVal::Null) => true,
        (JVal::Str(x), JVal::Str(y)) => x == y,
        (JVal::Arr(x), JVal::Arr(y)) => x.len() == y.len() && (forall|i: int|
            0 <= i < x.len() ==> jeq(#[trigger] x[i], y[i])),
        (JVal::Obj(x), JVal::Obj(y)) => x.len() == y.len() && (forall|i: int|
            0 <= i < x.len() ==> has_key(y, (#[trigger] x[i]).0) && jeq(
                x[i].1,
                entry_val(y, x[i].0),
            )),
        _ => false,
    }
}

/// Decides `jeq` on two values: the JSON understanding of equality, where
/// the order of an object's entries does not matter.
pub fn eq_value(a: &Value, b: &Value) -> (r: bool)
    ensures
        r == jeq(jval(*a), jval(*b)),
    decreases *a,
{
    match (a, b) {
        (Value::Null, Value::Null) => true,
        (Value::Str(x), Value::Str(y)) => *x == *y,
        (Value::Arr(x), Value::Arr(y)) => {
            proof {
                lemma_vals_view(x@);
                lemma_vals_view(y@);
            }
            if x.len() != y.len() {
                return false;
            }
            let n = x.len();
            let mut i: usize = 0;
            while i < n
                invariant
                    n == x@.len(),
                    n == y@.len(),
                    i <= n,
                    a is Arr,
                    x@ == a->Arr_0@,
                    b is Arr,
                    y@ == b->Arr_0@,
                    forall|j: int| 0 <= j < i ==> jeq(jval(x@[j]), jval(y@[j])),
                decreases n - i,
            {
                proof {
                    lemma_vals_view(x@);
                    lemma_vals_view(y@);
                }
                if !eq_value(&x[i], &y[i]) {
                    proof {
                        assert(!jeq(vals_view(x@)[i as int], vals_view(y@)[i as int]));
                    }
                    return false;
                }
                i += 1;
            }
            proof {
                lemma_vals_view(x@);
                lemma_vals_view(y@);
                assert forall|j: int| 0 <= j < vals_view(x@).len() implies jeq(
                    #[trigger] vals_view(x@)[j],
                    vals_view(y@)[j],
                ) by {
                    assert(jeq(jval(x@[j]), jval(y@[j])));
                }
            }
            true
        },
        (Value::Obj(x), Value::Obj(y)) => {
            proof {
                lemma_entries_view(x@);
                lemma_entries_view(y@);
            }
            if x.len() != y.len() {
                return false;
            }
            let n = x.len();
            let mut i: usize = 0;
            while i < n
                invariant
                    n == x@.len(),
                    n == y@.len(),
                    i <= n,
                    a is Obj,
                    x@ == a->Obj_0@,
                    b is Obj,
                    y@ == b->Obj_0@,
                    forall|j: int|
                        0 <= j < i ==> has_key(entries_view(y@), #[trigger] entries_view(x@)[j].0)
                            && jeq(
                            entries_view(x@)[j].1,
                            entry_val(entries_view(y@), entries_view(x@)[j].0),
                        ),
                decreases n - i,
            {
                proof {
                    lemma_entries_view(x@);
                    lemma_entries_view(y@);
                }
                let ghost ym = entries_view(y@);
                let ghost xm = entries_view(x@);
                let mut j: usize = 0;
                let mut fj: usize = n;
                while j < n && fj == n
                    invariant
                        n == x@.len(),
                        n == y@.len(),
                        i < n,
                        j <= n,
                        fj == n ==> forall|jj: int|
                            0 <= jj < j ==> #[trigger] y@[jj].0@ != x@[i as int].0@,
                        fj < n ==> y@[fj as int].0@ == x@[i as int].0@ && forall|jj: int|
                            0 <= jj < fj ==> #[trigger] y@[jj].0@ != x@[i as int].0@,
                        fj <= n,
                    decreases n - j,
                {
                    if y[j].0 == x[i].0 {
                        fj = j;
                    }
                    j += 1;
                }
                proof {
                    lemma_entries_view(x@);
                    lemma_entries_view(y@);
                }
                if fj == n {
                    proof {
                        assert forall|jj: int| 0 <= jj < ym.len() implies ym[jj].0 != xm[i as int].0
                        by {
                            assert(y@[jj].0@ != x@[i as int].0@);
                        }
                        lemma_entry_absent(ym, xm[i as int].0, JVal::Null);
                        assert(!has_key(ym, xm[i as int].0));
                    }
                    return false;
                }
                proof {
                    assert(y@[fj as int].0@ == x@[i as int].0@);
                    assert forall|jj: int| 0 <= jj < fj implies ym[jj].0 != xm[i as int].0 by {
                        assert(y@[jj].0@ != x@[i as int].0@);
                    }
                    lemma_entry_at_index(ym, xm[i as int].0, JVal::Null, fj as int);
                    assert(entry_val(ym, xm[i as int].0) == ym[fj as int].1);
                }
                if !eq_value(&x[i].1, &y[fj].1) {
                    proof {
                        assert(!jeq(xm[i as int].1, entry_val(ym, xm[i as int].0)));
                    }
                    return false;
                }
                i += 1;
            }
            proof {
                lemma_entries_view(x@);
                lemma_entries_view(y@);
            }
            true
        },
        _ => {
            proof {
                assert(!jeq(jval(*a), jval(*b)));
            }
            false
        },
    }
}

} // verus!
