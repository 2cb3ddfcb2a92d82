//! The conversion's general laws, stated over the models and proved for
//! all inputs.
use vstd::prelude::*;

use crate::convert::{at_key, attach_attrs, attrs_into, clamp_pos, run};
use crate::events::Ev;
use crate::node::{
    cdata_key, flushed_obs, flushed_tags, frame_insert_cdata, frame_insert_child, frame_value,
    seg_vals, FrameM,
};
use crate::value::{
    entries_wf, entry_get, entry_rm, entry_set, has_key, jwf, lemma_entry_absent,
    lemma_entry_get_set, lemma_entry_rm_absent, lemma_has_key, JVal,
};

verus! {

/// A document holding a single empty element converts to an object that
/// maps the element's name to null.
pub proof fn lemma_single_empty_element(name: Seq<char>, depth: int, limit: int)
    requires
        depth + 1 <= limit,
    ensures
        run(
            seq![Ev::Open(name, Seq::empty()), Ev::Close, Ev::Eof],
            0,
            depth,
            limit,
            FrameM::empty(),
        ) == Result::<(JVal, int), ()>::Ok((JVal::Obj(seq![(name, JVal::Null)]), 3)),
{
    let evs = seq![Ev::Open(name, Seq::empty()), Ev::Close, Ev::Eof];
    reveal_with_fuel(run, 3);
    assert(run(evs, 1, depth + 1, limit, FrameM::empty()) == Result::<(JVal, int), ()>::Ok(
        (frame_value(FrameM::empty()), 2),
    ));
    assert(frame_value(FrameM::empty()) == JVal::Null);
    assert(attach_attrs(Seq::empty(), JVal::Null) == JVal::Null);
    let f1 = frame_insert_child(FrameM::empty(), name, JVal::Null);
    assert(f1.node == seq![(name, JVal::Null)]);
    assert(clamp_pos(2, 1, 3) == 2);
    assert(run(evs, 2, depth, limit, f1) == Result::<(JVal, int), ()>::Ok(
        (frame_value(f1), 3),
    ));
    assert(flushed_obs(f1) == seq![f1.node]);
    assert(frame_value(f1) == JVal::Obj(seq![(name, JVal::Null)]));
}

/// A document holding one element with only character data converts to an
/// object that maps the element's name to that text as a string.
#[verifier::rlimit(50)]
pub proof fn lemma_text_only_element(name: Seq<char>, t: Seq<char>, depth: int, limit: int)
    requires
        depth + 1 <= limit,
    ensures
        run(
            seq![Ev::Open(name, Seq::empty()), Ev::Text(t), Ev::Close, Ev::Eof],
            0,
            depth,
            limit,
            FrameM::empty(),
        ) == Result::<(JVal, int), ()>::Ok((JVal::Obj(seq![(name, JVal::Str(t))]), 4)),
{
    let evs = seq![Ev::Open(name, Seq::empty()), Ev::Text(t), Ev::Close, Ev::Eof];
    reveal_with_fuel(run, 4);
    let fc = crate::node::frame_insert_text(FrameM::empty(), t);
    assert(fc.txs == seq![t]);
    assert(fc.tags == seq![false]);
    assert(run(evs, 2, depth + 1, limit, fc) == Result::<(JVal, int), ()>::Ok(
        (frame_value(fc), 3),
    ));
    assert(flushed_obs(fc).len() == 0);
    assert(seg_vals(seq![false].drop_first(), Seq::empty(), seq![t].drop_first())
        =~= Seq::<JVal>::empty());
    assert(seg_vals(seq![false], Seq::empty(), seq![t]) =~= seq![JVal::Str(t)]);
    assert(frame_value(fc) == JVal::Str(t));
    assert(run(evs, 1, depth + 1, limit, FrameM::empty()) == Result::<(JVal, int), ()>::Ok(
        (JVal::Str(t), 3),
    ));
    assert(attach_attrs(Seq::empty(), JVal::Str(t)) == JVal::Str(t));
    let f1 = frame_insert_child(FrameM::empty(), name, JVal::Str(t));
    assert(f1.node == seq![(name, JVal::Str(t))]);
    assert(clamp_pos(3, 1, 4) == 3);
    assert(run(evs, 3, depth, limit, f1) == Result::<(JVal, int), ()>::Ok(
        (frame_value(f1), 4),
    ));
    assert(flushed_obs(f1) == seq![f1.node]);
    assert(frame_value(f1) == JVal::Obj(seq![(name, JVal::Str(t))]));
}

/// A document whose event stream is one empty element converts to an
/// object mapping the element's name to null: the whole-document form,
/// composed from `to_json`'s contract over the stream's name.
pub proof fn lemma_document_single_empty(
    xml: Seq<char>,
    name: Seq<char>,
    r: Result<crate::value::Value, crate::convert::Error>,
)
    requires
        crate::source::events_of(xml) == seq![Ev::Open(name, Seq::empty()), Ev::Close, Ev::Eof],
        crate::convert::run_matches(crate::source::events_of(xml), 0, r),
    ensures
        r is Ok && crate::value::jval(r->Ok_0) == JVal::Obj(seq![(name, JVal::Null)]),
{
    lemma_single_empty_element(name, 0, crate::convert::DEPTH_LIMIT as int);
}

/// A document whose event stream is one element holding only character
/// data converts to an object mapping the element's name to that text:
/// the whole-document form, composed from `to_json`'s contract.
pub proof fn lemma_document_text_only(
    xml: Seq<char>,
    name: Seq<char>,
    t: Seq<char>,
    r: Result<crate::value::Value, crate::convert::Error>,
)
    requires
        crate::source::events_of(xml) == seq![
            Ev::Open(name, Seq::empty()),
            Ev::Text(t),
            Ev::Close,
            Ev::Eof,
        ],
        crate::convert::run_matches(crate::source::events_of(xml), 0, r),
    ensures
        r is Ok && crate::value::jval(r->Ok_0) == JVal::Obj(seq![(name, JVal::Str(t))]),
{
    lemma_text_only_element(name, t, 0, crate::convert::DEPTH_LIMIT as int);
}

/// The `@`-prefix keeps attribute names apart.
pub proof fn lemma_at_key_injective(x: Seq<char>, y: Seq<char>)
    requires
        at_key(x) == at_key(y),
    ensures
        x == y,
{
    assert(x =~= at_key(x).drop_first());
    assert(y =~= at_key(y).drop_first());
}

/// Folding attributes in adds exactly the `@`-prefixed keys: a key is held
/// afterwards when it was held before or some attribute carries it.
pub proof fn lemma_attrs_into_has_key(
    m: Seq<(Seq<char>, JVal)>,
    attrs: Seq<(Seq<char>, Seq<char>)>,
    k: Seq<char>,
)
    ensures
        has_key(attrs_into(m, attrs), k) <==> has_key(m, k) || exists|i: int|
            0 <= i < attrs.len() && at_key((#[trigger] attrs[i]).0) == k,
    decreases attrs,
{
    if attrs.len() == 0 {
    } else {
        let m1 = entry_set(m, at_key(attrs[0].0), JVal::Str(attrs[0].1));
        lemma_attrs_into_has_key(m1, attrs.drop_first(), k);
        lemma_has_key(m, k);
        lemma_has_key(m1, k);
        lemma_entry_get_set(m, at_key(attrs[0].0), JVal::Str(attrs[0].1));
        if k == at_key(attrs[0].0) {
            assert(has_key(m1, k));
            assert(at_key(attrs[0].0) == k);
        } else {
            assert(entry_get(m1, k) == entry_get(m, k));
            lemma_entry_get_is_has_key(m, k);
            lemma_entry_get_is_has_key(m1, k);
            assert(has_key(m1, k) <==> has_key(m, k));
            assert forall|i: int|
                0 <= i < attrs.len() && at_key((#[trigger] attrs[i]).0) == k implies exists|j: int|
                0 <= j < attrs.drop_first().len() && at_key(
                    (#[trigger] attrs.drop_first()[j]).0,
                ) == k by {
                let i = choose|i: int| 0 <= i < attrs.len() && at_key((#[trigger] attrs[i]).0) == k;
                assert(i != 0);
                assert(attrs.drop_first()[i - 1] == attrs[i]);
            }
            assert forall|j: int|
                0 <= j < attrs.drop_first().len() && at_key((#[trigger] attrs.drop_first()[j]).0)
                    == k implies exists|i: int|
                0 <= i < attrs.len() && at_key((#[trigger] attrs[i]).0) == k by {
                let j = choose|j: int|
                    0 <= j < attrs.drop_first().len() && at_key(
                        (#[trigger] attrs.drop_first()[j]).0,
                    ) == k;
                assert(attrs[j + 1] == attrs.drop_first()[j]);
            }
        }
    }
}

/// Reading finds a value exactly when the key is held.
pub proof fn lemma_entry_get_is_has_key(m: Seq<(Seq<char>, JVal)>, k: Seq<char>)
    ensures
        has_key(m, k) <==> entry_get(m, k) is Some,
    decreases m,
{
    if m.len() > 0 {
        lemma_entry_get_is_has_key(m.drop_first(), k);
    }
}

/// The attribute set alone — not the order attributes were written in —
/// determines which `@`-prefixed keys the merged result holds.
pub proof fn lemma_attr_key_set_determined(
    a1: Seq<(Seq<char>, Seq<char>)>,
    a2: Seq<(Seq<char>, Seq<char>)>,
    m: Seq<(Seq<char>, JVal)>,
    k: Seq<char>,
)
    requires
        a1.to_set() == a2.to_set(),
    ensures
        has_key(attrs_into(m, a1), k) <==> has_key(attrs_into(m, a2), k),
{
    lemma_attrs_into_has_key(m, a1, k);
    lemma_attrs_into_has_key(m, a2, k);
    assert forall|i: int|
        0 <= i < a1.len() && at_key((#[trigger] a1[i]).0) == k implies exists|j: int|
        0 <= j < a2.len() && at_key((#[trigger] a2[j]).0) == k by {
        let i = choose|i: int| 0 <= i < a1.len() && at_key((#[trigger] a1[i]).0) == k;
        assert(a1.to_set().contains(a1[i]));
        assert(a2.to_set().contains(a1[i]));
        let j = choose|j: int| 0 <= j < a2.len() && a2[j] == a1[i];
        assert(at_key(a2[j].0) == k);
    }
    assert forall|j: int|
        0 <= j < a2.len() && at_key((#[trigger] a2[j]).0) == k implies exists|i: int|
        0 <= i < a1.len() && at_key((#[trigger] a1[i]).0) == k by {
        let j = choose|j: int| 0 <= j < a2.len() && at_key((#[trigger] a2[j]).0) == k;
        assert(a2.to_set().contains(a2[j]));
        assert(a1.to_set().contains(a2[j]));
        let i = choose|i: int| 0 <= i < a1.len() && a1[i] == a2[j];
        assert(at_key(a1[i].0) == k);
    }
}

/// N distinct attributes yield N `@`-prefixed entries with no loss, in
/// attribute order, each holding its value as a string.
pub proof fn lemma_attrs_distinct_no_loss(
    m: Seq<(Seq<char>, JVal)>,
    attrs: Seq<(Seq<char>, Seq<char>)>,
)
    requires
        forall|i: int, j: int|
            0 <= i < j < attrs.len() ==> (#[trigger] attrs[i]).0 != (#[trigger] attrs[j]).0,
        forall|i: int| 0 <= i < attrs.len() ==> !has_key(m, at_key((#[trigger] attrs[i]).0)),
    ensures
        attrs_into(m, attrs) =~= m + attrs.map_values(
            |p: (Seq<char>, Seq<char>)| (at_key(p.0), JVal::Str(p.1)),
        ),
    decreases attrs,
{
    let f = |p: (Seq<char>, Seq<char>)| (at_key(p.0), JVal::Str(p.1));
    if attrs.len() == 0 {
        assert(attrs_into(m, attrs) =~= m + attrs.map_values(f));
    } else {
        lemma_has_key(m, at_key(attrs[0].0));
        lemma_entry_absent(m, at_key(attrs[0].0), JVal::Str(attrs[0].1));
        let m1 = entry_set(m, at_key(attrs[0].0), JVal::Str(attrs[0].1));
        assert(m1 =~= m.push(f(attrs[0])));
        assert forall|i: int|
            0 <= i < attrs.drop_first().len() implies !has_key(
            m1,
            at_key((#[trigger] attrs.drop_first()[i]).0),
        ) by {
            assert(attrs.drop_first()[i] == attrs[i + 1]);
            lemma_at_key_injective_contra(attrs[i + 1].0, attrs[0].0);
            lemma_has_key(m1, at_key(attrs[i + 1].0));
            lemma_has_key(m, at_key(attrs[i + 1].0));
        }
        lemma_attrs_distinct_no_loss(m1, attrs.drop_first());
        assert(attrs.drop_first().map_values(f) =~= attrs.map_values(f).drop_first());
        assert(attrs_into(m, attrs) =~= m + attrs.map_values(f));
    }
}

/// Distinct names have distinct `@`-prefixed keys.
pub proof fn lemma_at_key_injective_contra(x: Seq<char>, y: Seq<char>)
    requires
        x != y,
    ensures
        at_key(x) != at_key(y),
{
    if at_key(x) == at_key(y) {
        lemma_at_key_injective(x, y);
    }
}

/// Merging same-named siblings one after the other, starting from an array
/// already under the name, appends them in order.
proof fn lemma_siblings_extend(
    f: FrameM,
    name: Seq<char>,
    vals: Seq<JVal>,
    acc: Seq<JVal>,
)
    requires
        entry_get(f.node, name) == Option::Some(JVal::Arr(acc)),
    ensures
        entry_get(insert_children(f, name, vals).node, name) == Option::Some(
            JVal::Arr(acc + vals),
        ),
    decreases vals,
{
    if vals.len() == 0 {
        assert(acc + vals =~= acc);
    } else {
        let f1 = frame_insert_child(f, name, vals[0]);
        lemma_entry_get_set(entry_rm(f.node, name), name, JVal::Arr(acc.push(vals[0])));
        assert(entry_get(f1.node, name) == Option::Some(JVal::Arr(acc.push(vals[0]))));
        lemma_siblings_extend(f1, name, vals.drop_first(), acc.push(vals[0]));
        assert(acc.push(vals[0]) + vals.drop_first() =~= acc + vals);
    }
}

/// Folding a list of child values under one name into a frame.
pub open spec fn insert_children(f: FrameM, name: Seq<char>, vals: Seq<JVal>) -> FrameM
    decreases vals,
{
    if vals.len() == 0 {
        f
    } else {
        insert_children(frame_insert_child(f, name, vals[0]), name, vals.drop_first())
    }
}

/// Two or more same-named sibling elements always stand as an array of all
/// their values in document order — never as a last-write-wins overwrite.
/// A sibling whose own merged value is an array is left out: merging such
/// a value flattens it into the promotion array instead.
pub proof fn lemma_siblings_form_array(f: FrameM, name: Seq<char>, vals: Seq<JVal>)
    requires
        !has_key(f.node, name),
        vals.len() >= 2,
        forall|i: int| 0 <= i < vals.len() ==> !((#[trigger] vals[i]) is Arr),
    ensures
        entry_get(insert_children(f, name, vals).node, name) == Option::Some(JVal::Arr(vals)),
{
    lemma_entry_get_is_has_key(f.node, name);
    let f1 = frame_insert_child(f, name, vals[0]);
    lemma_entry_rm_absent(f.node, name);
    lemma_entry_get_set(f.node, name, vals[0]);
    assert(f1.node == entry_set(entry_rm(f.node, name), name, vals[0]));
    assert(entry_get(f1.node, name) == Option::Some(vals[0]));
    let f2 = frame_insert_child(f1, name, vals[1]);
    assert(!(vals[0] is Arr));
    lemma_entry_get_set(entry_rm(f1.node, name), name, JVal::Arr(seq![vals[0], vals[1]]));
    assert(entry_get(f2.node, name) == Option::Some(JVal::Arr(seq![vals[0], vals[1]])));
    lemma_siblings_extend(f2, name, vals.skip(2), seq![vals[0], vals[1]]);
    assert(seq![vals[0], vals[1]] + vals.skip(2) =~= vals);
    assert(insert_children(f, name, vals) == insert_children(f2, name, vals.skip(2))) by {
        reveal_with_fuel(insert_children, 3);
        assert(vals.drop_first()[0] == vals[1]);
        assert(vals.drop_first().drop_first() =~= vals.skip(2));
        assert(insert_children(f, name, vals) == insert_children(
            frame_insert_child(f, name, vals[0]),
            name,
            vals.drop_first(),
        ));
        assert(insert_children(f1, name, vals.drop_first()) == insert_children(
            frame_insert_child(f1, name, vals.drop_first()[0]),
            name,
            vals.drop_first().drop_first(),
        ));
        assert(frame_insert_child(f1, name, vals.drop_first()[0]) == f2);
    }
}

/// One merge step of duplicate-name promotion: a child arriving under a
/// name the open node already binds turns a single prior value into a
/// two-element array and extends a prior array by exactly one, the prior
/// values first in their original order and the new value last; under a
/// fresh name it stands alone. Nothing is overwritten or lost.
pub proof fn lemma_promotion_step(f: FrameM, name: Seq<char>, v: JVal)
    ensures
        match entry_get(f.node, name) {
            Option::Some(JVal::Arr(vs)) => entry_get(frame_insert_child(f, name, v).node, name)
                == Option::Some(JVal::Arr(vs.push(v))),
            Option::Some(o) => entry_get(frame_insert_child(f, name, v).node, name)
                == Option::Some(JVal::Arr(seq![o, v])),
            Option::None => entry_get(frame_insert_child(f, name, v).node, name) == Option::Some(
                v,
            ),
        },
        forall|k: Seq<char>|
            k != name ==> #[trigger] entry_get(frame_insert_child(f, name, v).node, k)
                == entry_get(f.node, k),
{
    let merged = match entry_get(f.node, name) {
        Option::Some(JVal::Arr(vs)) => JVal::Arr(vs.push(v)),
        Option::Some(o) => JVal::Arr(seq![o, v]),
        Option::None => v,
    };
    lemma_entry_get_set(entry_rm(f.node, name), name, merged);
    assert forall|k: Seq<char>|
        k != name implies #[trigger] entry_get(frame_insert_child(f, name, v).node, k)
        == entry_get(f.node, k) by {
        lemma_entry_rm_get_other(f.node, name, k);
    }
}

/// Removing one key leaves reading every other key unchanged.
pub proof fn lemma_entry_rm_get_other(m: Seq<(Seq<char>, JVal)>, k: Seq<char>, k2: Seq<char>)
    requires
        k2 != k,
    ensures
        entry_get(entry_rm(m, k), k2) == entry_get(m, k2),
    decreases m,
{
    if m.len() > 0 {
        lemma_entry_rm_get_other(m.drop_first(), k, k2);
        if m[0].0 == k {
        } else {
            let r = entry_rm(m, k);
            assert(r[0] == m[0]);
            assert(r.drop_first() =~= entry_rm(m.drop_first(), k));
        }
    }
}

/// Folding a list of CDATA sections into a frame.
pub open spec fn insert_cdatas(f: FrameM, ds: Seq<Seq<char>>) -> FrameM
    decreases ds,
{
    if ds.len() == 0 {
        f
    } else {
        insert_cdatas(frame_insert_cdata(f, ds[0]), ds.drop_first())
    }
}

/// All the sections' content, in order, with no separator.
pub open spec fn concat_all(ds: Seq<Seq<char>>) -> Seq<char>
    decreases ds,
{
    if ds.len() == 0 {
        Seq::empty()
    } else {
        ds[0] + concat_all(ds.drop_first())
    }
}

proof fn lemma_cdatas_extend(f: FrameM, ds: Seq<Seq<char>>, acc: Seq<char>)
    requires
        entry_get(f.node, cdata_key()) == Option::Some(JVal::Str(acc)),
    ensures
        entry_get(insert_cdatas(f, ds).node, cdata_key()) == Option::Some(
            JVal::Str(acc + concat_all(ds)),
        ),
        insert_cdatas(f, ds).obs == f.obs,
        insert_cdatas(f, ds).txs == f.txs,
        insert_cdatas(f, ds).tags == f.tags,
    decreases ds,
{
    if ds.len() == 0 {
        assert(acc + concat_all(ds) =~= acc);
    } else {
        let f1 = frame_insert_cdata(f, ds[0]);
        lemma_entry_get_set(f.node, cdata_key(), JVal::Str(acc + ds[0]));
        assert(entry_get(f1.node, cdata_key()) == Option::Some(JVal::Str(acc + ds[0])));
        lemma_cdatas_extend(f1, ds.drop_first(), acc + ds[0]);
        assert(acc + ds[0] + concat_all(ds.drop_first()) =~= acc + concat_all(ds));
    }
}

/// Adjacent CDATA sections within one element concatenate, in order, into
/// a single string under the reserved CDATA key, with no separator — and
/// never flush a segment.
pub proof fn lemma_cdata_concatenates(f: FrameM, ds: Seq<Seq<char>>)
    requires
        !has_key(f.node, cdata_key()),
        ds.len() >= 1,
    ensures
        entry_get(insert_cdatas(f, ds).node, cdata_key()) == Option::Some(
            JVal::Str(concat_all(ds)),
        ),
        insert_cdatas(f, ds).obs == f.obs,
        insert_cdatas(f, ds).txs == f.txs,
        insert_cdatas(f, ds).tags == f.tags,
{
    lemma_entry_get_is_has_key(f.node, cdata_key());
    let f1 = frame_insert_cdata(f, ds[0]);
    lemma_entry_get_set(f.node, cdata_key(), JVal::Str(ds[0]));
    assert(entry_get(f1.node, cdata_key()) == Option::Some(JVal::Str(ds[0])));
    lemma_cdatas_extend(f1, ds.drop_first(), ds[0]);
    assert(ds[0] + concat_all(ds.drop_first()) =~= concat_all(ds));
}

/// The segment list's values keep the segment count.
pub proof fn lemma_seg_vals_len(
    tags: Seq<bool>,
    obs: Seq<Seq<(Seq<char>, JVal)>>,
    txs: Seq<Seq<char>>,
)
    ensures
        seg_vals(tags, obs, txs).len() == tags.len(),
    decreases tags,
{
    if tags.len() > 0 {
        if tags[0] {
            lemma_seg_vals_len(tags.drop_first(), obs.drop_first(), txs);
        } else {
            lemma_seg_vals_len(tags.drop_first(), obs, txs.drop_first());
        }
    }
}

/// Genuinely mixed content — two or more segments that do not fold into a
/// single object — finalizes to an array holding every segment's value in
/// exact document order.
pub proof fn lemma_mixed_preserves_order(f: FrameM)
    requires
        !(flushed_obs(f).len() == 1 && f.txs.len() <= 1),
        flushed_tags(f).len() >= 2,
    ensures
        frame_value(f) == JVal::Arr(seg_vals(flushed_tags(f), flushed_obs(f), f.txs)),
        seg_vals(flushed_tags(f), flushed_obs(f), f.txs).len() == flushed_tags(f).len(),
{
    lemma_seg_vals_len(flushed_tags(f), flushed_obs(f), f.txs);
}

/// The open node and every flushed object segment are well formed.
pub open spec fn frame_vals_wf(f: FrameM) -> bool {
    entries_wf(f.node) && forall|i: int| 0 <= i < f.obs.len() ==> entries_wf(#[trigger] f.obs[i])
}

/// A value read out of a well-formed entry list is well formed.
proof fn lemma_entry_get_wf(m: Seq<(Seq<char>, JVal)>, k: Seq<char>)
    requires
        entries_wf(m),
        entry_get(m, k) is Some,
    ensures
        jwf(entry_get(m, k)->Some_0),
    decreases m,
{
    if m.len() > 0 {
        if m[0].0 == k {
            assert(jwf(m[0].1));
        } else {
            assert forall|i: int| 0 <= i < m.drop_first().len() implies entries_wf_at(
                m.drop_first(),
                i,
            ) by {
                assert(m.drop_first()[i] == m[i + 1]);
            }
            lemma_entry_get_wf(m.drop_first(), k);
        }
    }
}

/// One entry of a well-formed list, seen on its own.
spec fn entries_wf_at(m: Seq<(Seq<char>, JVal)>, i: int) -> bool {
    jwf(m[i].1) && forall|j: int| 0 <= j < m.len() && j != i ==> (#[trigger] m[j]).0 != m[i].0
}

/// Text never disturbs well-formedness.
proof fn lemma_insert_text_wf(f: FrameM, t: Seq<char>)
    requires
        frame_vals_wf(f),
        crate::node::frame_wf(f),
    ensures
        frame_vals_wf(crate::node::frame_insert_text(f, t)),
        crate::node::frame_wf(crate::node::frame_insert_text(f, t)),
{
    let r = crate::node::frame_insert_text(f, t);
    if f.node.len() > 0 {
        crate::node::lemma_count_true_push(f.tags, true);
        crate::node::lemma_count_true_push(f.tags.push(true), false);
    } else {
        crate::node::lemma_count_true_push(f.tags, false);
    }
    assert forall|i: int| 0 <= i < r.obs.len() implies entries_wf(#[trigger] r.obs[i]) by {
        if i < f.obs.len() {
            assert(entries_wf(f.obs[i]));
        } else {
            assert(r.obs[i] == f.node);
        }
    }
}

/// CDATA accumulation keeps the node well formed.
proof fn lemma_insert_cdata_wf(f: FrameM, d: Seq<char>)
    requires
        frame_vals_wf(f),
    ensures
        frame_vals_wf(frame_insert_cdata(f, d)),
{
    let nv = match entry_get(f.node, cdata_key()) {
        Option::Some(JVal::Str(s)) => s + d,
        _ => d,
    };
    crate::value::lemma_entry_set_wf(f.node, cdata_key(), JVal::Str(nv));
}

/// Merging a well-formed child keeps the frame well formed.
proof fn lemma_insert_child_wf(f: FrameM, name: Seq<char>, v: JVal)
    requires
        frame_vals_wf(f),
        jwf(v),
    ensures
        frame_vals_wf(frame_insert_child(f, name, v)),
{
    let merged = match entry_get(f.node, name) {
        Option::Some(JVal::Arr(vs)) => JVal::Arr(vs.push(v)),
        Option::Some(o) => JVal::Arr(seq![o, v]),
        Option::None => v,
    };
    if entry_get(f.node, name) is Some {
        lemma_entry_get_wf(f.node, name);
    }
    assert(jwf(merged)) by {
        match entry_get(f.node, name) {
            Option::Some(JVal::Arr(vs)) => {
                assert(jwf(JVal::Arr(vs)));
                assert forall|i: int| 0 <= i < vs.push(v).len() implies jwf(
                    #[trigger] vs.push(v)[i],
                ) by {
                    if i < vs.len() {
                        assert(jwf(vs[i]));
                    }
                }
            },
            Option::Some(o) => {
                assert(jwf(o));
                assert(seq![o, v][0] == o);
                assert(seq![o, v][1] == v);
            },
            Option::None => {},
        }
    }
    crate::value::lemma_entry_rm_wf(f.node, name);
    crate::value::lemma_entry_set_wf(entry_rm(f.node, name), name, merged);
}

/// Folding attributes in keeps an entry list well formed.
proof fn lemma_attrs_into_wf(m: Seq<(Seq<char>, JVal)>, attrs: Seq<(Seq<char>, Seq<char>)>)
    requires
        entries_wf(m),
    ensures
        entries_wf(attrs_into(m, attrs)),
    decreases attrs,
{
    if attrs.len() > 0 {
        crate::value::lemma_entry_set_wf(m, at_key(attrs[0].0), JVal::Str(attrs[0].1));
        lemma_attrs_into_wf(
            entry_set(m, at_key(attrs[0].0), JVal::Str(attrs[0].1)),
            attrs.drop_first(),
        );
    }
}

/// Attribute merging keeps a well-formed child well formed.
proof fn lemma_attach_attrs_wf(attrs: Seq<(Seq<char>, Seq<char>)>, child: JVal)
    requires
        jwf(child),
    ensures
        jwf(attach_attrs(attrs, child)),
{
    match child {
        JVal::Obj(m) => {
            lemma_attrs_into_wf(m, attrs);
        },
        _ => {
            if attrs.len() > 0 {
                assert(entries_wf(Seq::empty()));
                lemma_attrs_into_wf(Seq::empty(), attrs);
                if child is Str {
                    crate::value::lemma_entry_set_wf(
                        attrs_into(Seq::empty(), attrs),
                        crate::node::text_key(),
                        child,
                    );
                }
            }
        },
    }
}

/// Every interleaved segment value is well formed.
proof fn lemma_seg_vals_wf(
    tags: Seq<bool>,
    obs: Seq<Seq<(Seq<char>, JVal)>>,
    txs: Seq<Seq<char>>,
)
    requires
        forall|i: int| 0 <= i < obs.len() ==> entries_wf(#[trigger] obs[i]),
        crate::node::count_true(tags) <= obs.len(),
    ensures
        forall|i: int|
            0 <= i < seg_vals(tags, obs, txs).len() ==> jwf(#[trigger] seg_vals(tags, obs, txs)[i]),
    decreases tags,
{
    if tags.len() > 0 {
        crate::node::lemma_count_true_bounds(tags.drop_first());
        let whole = seg_vals(tags, obs, txs);
        if tags[0] {
            assert(obs.len() >= 1);
            assert forall|i: int| 0 <= i < obs.drop_first().len() implies entries_wf(
                #[trigger] obs.drop_first()[i],
            ) by {
                assert(obs.drop_first()[i] == obs[i + 1]);
            }
            lemma_seg_vals_wf(tags.drop_first(), obs.drop_first(), txs);
            assert(jwf(JVal::Obj(obs[0])));
            let tail = seg_vals(tags.drop_first(), obs.drop_first(), txs);
            assert forall|i: int| 0 <= i < whole.len() implies jwf(#[trigger] whole[i]) by {
                if i == 0 {
                    assert(whole[0] == JVal::Obj(obs[0]));
                } else {
                    assert(whole[i] == tail[i - 1]);
                    assert(jwf(tail[i - 1]));
                }
            }
        } else {
            lemma_seg_vals_wf(tags.drop_first(), obs, txs.drop_first());
            let tail = seg_vals(tags.drop_first(), obs, txs.drop_first());
            assert forall|i: int| 0 <= i < whole.len() implies jwf(#[trigger] whole[i]) by {
                if i == 0 {
                    assert(whole[0] == JVal::Str(txs[0]));
                } else {
                    assert(whole[i] == tail[i - 1]);
                    assert(jwf(tail[i - 1]));
                }
            }
        }
    }
}

/// Finalizing a well-formed frame gives a well-formed value.
proof fn lemma_frame_value_wf(f: FrameM)
    requires
        frame_vals_wf(f),
        crate::node::frame_wf(f),
    ensures
        jwf(frame_value(f)),
{
    let obs = flushed_obs(f);
    if f.node.len() > 0 {
        crate::node::lemma_count_true_push(f.tags, true);
    }
    assert(crate::node::count_true(flushed_tags(f)) <= obs.len());
    assert forall|i: int| 0 <= i < obs.len() implies entries_wf(#[trigger] obs[i]) by {
        if i < f.obs.len() {
            assert(entries_wf(f.obs[i]));
        } else {
            assert(obs[i] == f.node);
        }
    }
    if obs.len() == 1 && f.txs.len() <= 1 {
        if f.txs.len() == 1 {
            crate::value::lemma_entry_set_wf(
                obs[0],
                crate::node::text_key(),
                JVal::Str(f.txs[0]),
            );
        }
    } else {
        lemma_seg_vals_wf(flushed_tags(f), obs, f.txs);
    }
}

/// A conversion run from a well-formed frame yields a well-formed value.
proof fn lemma_run_wf(evs: Seq<Ev>, pos: int, depth: int, limit: int, f: FrameM)
    requires
        0 <= pos <= evs.len(),
        frame_vals_wf(f),
        crate::node::frame_wf(f),
    ensures
        match run(evs, pos, depth, limit, f) {
            Result::Ok(p) => jwf(p.0),
            Result::Err(e) => true,
        },
    decreases evs.len() - pos,
{
    if pos >= evs.len() {
        lemma_frame_value_wf(f);
    } else {
        match evs[pos] {
            Ev::Open(name, attrs) => {
                if depth + 1 <= limit {
                    lemma_run_wf(evs, pos + 1, depth + 1, limit, FrameM::empty());
                    crate::convert::lemma_run_next(evs, pos + 1, depth + 1, limit, FrameM::empty());
                    match run(evs, pos + 1, depth + 1, limit, FrameM::empty()) {
                        Result::Err(e) => {},
                        Result::Ok((child, n0)) => {
                            let next = clamp_pos(n0, pos + 1, evs.len() as int);
                            lemma_attach_attrs_wf(attrs, child);
                            lemma_insert_child_wf(f, name, attach_attrs(attrs, child));
                            lemma_run_wf(
                                evs,
                                next,
                                depth,
                                limit,
                                frame_insert_child(f, name, attach_attrs(attrs, child)),
                            );
                        },
                    }
                }
            },
            Ev::Text(t) => {
                lemma_insert_text_wf(f, t);
                lemma_run_wf(evs, pos + 1, depth, limit, crate::node::frame_insert_text(f, t));
            },
            Ev::CData(d) => {
                lemma_insert_cdata_wf(f, d);
                lemma_run_wf(evs, pos + 1, depth, limit, frame_insert_cdata(f, d));
            },
            Ev::Close => {
                lemma_frame_value_wf(f);
            },
            Ev::Eof => {
                lemma_frame_value_wf(f);
            },
            Ev::Skip => {
                lemma_run_wf(evs, pos + 1, depth, limit, f);
            },
        }
    }
}

/// Whatever events arrive, a successful conversion yields a value in which
/// every object's keys are unique.
pub proof fn lemma_conversion_well_formed(evs: Seq<Ev>, depth: int, limit: int)
    ensures
        match run(evs, 0, depth, limit, FrameM::empty()) {
            Result::Ok(p) => jwf(p.0),
            Result::Err(e) => true,
        },
{
    lemma_run_wf(evs, 0, depth, limit, FrameM::empty());
}

} // verus!
