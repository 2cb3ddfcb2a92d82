//! The per-element accumulator.
//!
//! A `Node` is the object under construction for one element: an ordered
//! list of key/value entries in which a key occurs at most once. A `Frame`
//! combines the open `Node` with the already-flushed segments of the
//! element's content — finished object segments and free-standing text
//! runs — so that mixed content keeps its document order.
use vstd::prelude::*;

use crate::value::{
    entries_view, entry_get, entry_rm, entry_set, jval, lemma_entries_view, lemma_entry_absent,
    lemma_entry_at_index, lemma_entry_rm_absent, lemma_vals_view, vals_view, JVal, Value,
};

verus! {

/// The object-shaped accumulator: ordered entries, keys unique.
pub struct Node {
    entries: Vec<(String, Value)>,
}

impl View for Node {
    type V = Seq<(Seq<char>, JVal)>;

    closed spec fn view(&self) -> Seq<(Seq<char>, JVal)> {
        entries_view(self.entries@)
    }
}

impl Node {
    pub fn new() -> (n: Node)
        ensures
            n@ == Seq::<(Seq<char>, JVal)>::empty(),
    {
        Node { entries: Vec::new() }
    }

    pub fn is_empty(&self) -> (r: bool)
        ensures
            r == (self@.len() == 0),
    {
        proof {
            lemma_entries_view(self.entries@);
        }
        self.entries.len() == 0
    }

    /// The first index holding the key, if any.
    pub fn get_index(&self, key: &String) -> (r: Option<usize>)
        ensures
            match r {
                Option::Some(i) => i < self@.len() && self@[i as int].0 == key@ && forall|j: int|
                    0 <= j < i ==> (#[trigger] self@[j]).0 != key@,
                Option::None => forall|j: int|
                    0 <= j < self@.len() ==> (#[trigger] self@[j]).0 != key@,
            },
    {
        proof {
            lemma_entries_view(self.entries@);
        }
        let n = self.entries.len();
        let mut j: usize = 0;
        while j < n
            invariant
                n == self.entries@.len(),
                j <= n,
                forall|jj: int| 0 <= jj < j ==> (#[trigger] self.entries@[jj]).0@ != key@,
            decreases n - j,
        {
            if self.entries[j].0 == *key {
                proof {
                    lemma_entries_view(self.entries@);
                }
                return Option::Some(j);
            }
            j += 1;
        }
        proof {
            lemma_entries_view(self.entries@);
        }
        Option::None
    }

    /// The value stored at an index.
    pub fn value_at(&self, i: usize) -> (r: &Value)
        requires
            i < self@.len(),
        ensures
            jval(*r) == self@[i as int].1,
    {
        proof {
            lemma_entries_view(self.entries@);
        }
        &self.entries[i].1
    }

    /// Replaces the value under the key in place, or appends a new entry.
    pub fn set(&mut self, key: String, v: Value)
        ensures
            final(self)@ == entry_set(old(self)@, key@, jval(v)),
    {
        proof {
            lemma_entries_view(self.entries@);
        }
        let ghost m0 = self@;
        match self.get_index(&key) {
            Option::Some(i) => {
                proof {
                    lemma_entry_at_index(m0, key@, jval(v), i as int);
                }
                self.entries.set(i, (key, v));
                proof {
                    lemma_entries_view(old(self).entries@);
                    lemma_entries_view(self.entries@);
                    assert(self@ =~= m0.update(i as int, (key@, jval(v))));
                }
            },
            Option::None => {
                proof {
                    lemma_entry_absent(m0, key@, jval(v));
                }
                self.entries.push((key, v));
                proof {
                    lemma_entries_view(old(self).entries@);
                    lemma_entries_view(self.entries@);
                    assert(self@ =~= m0.push((key@, jval(v))));
                }
            },
        }
    }

    /// Removes the key's entry and hands its value back.
    pub fn remove(&mut self, key: &String) -> (r: Option<Value>)
        ensures
            match r {
                Option::Some(v) => entry_get(old(self)@, key@) == Option::Some(jval(v))
                    && final(self)@ == entry_rm(old(self)@, key@),
                Option::None => entry_get(old(self)@, key@) is None && final(self)@ == old(self)@,
            },
    {
        let ghost m0 = self@;
        match self.get_index(key) {
            Option::Some(i) => {
                proof {
                    lemma_entry_at_index(m0, key@, JVal::Null, i as int);
                    lemma_entries_view(self.entries@);
                }
                let e = self.entries.remove(i);
                proof {
                    lemma_entries_view(old(self).entries@);
                    lemma_entries_view(self.entries@);
                    assert(self@ =~= m0.remove(i as int));
                }
                Option::Some(e.1)
            },
            Option::None => {
                proof {
                    lemma_entry_absent(m0, key@, JVal::Null);
                }
                Option::None
            },
        }
    }

    /// Wraps an existing entry list, for working on an object value.
    pub fn from_entries(es: Vec<(String, Value)>) -> (n: Node)
        ensures
            n@ == entries_view(es@),
    {
        Node { entries: es }
    }

    /// Gives the entries up, for building an object value.
    pub fn into_entries(self) -> (r: Vec<(String, Value)>)
        ensures
            entries_view(r@) == self@,
    {
        self.entries
    }
}

/// The reserved key under which inline text is folded into an object.
pub open spec fn text_key() -> Seq<char> {
    "#text"@
}

/// The reserved key under which CDATA content accumulates.
pub open spec fn cdata_key() -> Seq<char> {
    "#cdata"@
}

/// The model of a frame: the open node, the flushed object segments, the
/// flushed text segments, and the order in which the two interleave (a
/// `true` tag is an object segment, a `false` tag a text segment).
#[verifier::ext_equal]
pub struct FrameM {
    pub node: Seq<(Seq<char>, JVal)>,
    pub obs: Seq<Seq<(Seq<char>, JVal)>>,
    pub txs: Seq<Seq<char>>,
    pub tags: Seq<bool>,
}

impl FrameM {
    pub open spec fn empty() -> FrameM {
        FrameM { node: Seq::empty(), obs: Seq::empty(), txs: Seq::empty(), tags: Seq::empty() }
    }
}

/// How many tags mark an object segment.
pub open spec fn count_true(s: Seq<bool>) -> int
    decreases s,
{
    if s.len() == 0 {
        0
    } else {
        (if s[0] {
            1int
        } else {
            0int
        }) + count_true(s.drop_first())
    }
}

/// The segment counts agree with the tag sequence.
pub open spec fn frame_wf(f: FrameM) -> bool {
    &&& count_true(f.tags) == f.obs.len()
    &&& f.tags.len() - count_true(f.tags) == f.txs.len()
}

/// Text flushes the open node as an object segment first, then stands as a
/// segment of its own: interleaved order is preserved.
pub open spec fn frame_insert_text(f: FrameM, t: Seq<char>) -> FrameM {
    if f.node.len() > 0 {
        FrameM {
            node: Seq::empty(),
            obs: f.obs.push(f.node),
            txs: f.txs.push(t),
            tags: f.tags.push(true).push(false),
        }
    } else {
        FrameM { node: Seq::empty(), obs: f.obs, txs: f.txs.push(t), tags: f.tags.push(false) }
    }
}

/// CDATA concatenates onto the open node's reserved key, with no separator
/// and without flushing a segment. Content found under the key that is not
/// a string is replaced.
pub open spec fn cdata_merge(node: Seq<(Seq<char>, JVal)>, d: Seq<char>) -> Seq<
    (Seq<char>, JVal),
> {
    let nv = match entry_get(node, cdata_key()) {
        Option::Some(JVal::Str(s)) => s + d,
        _ => d,
    };
    entry_set(node, cdata_key(), JVal::Str(nv))
}

pub open spec fn frame_insert_cdata(f: FrameM, d: Seq<char>) -> FrameM {
    FrameM { node: cdata_merge(f.node, d), obs: f.obs, txs: f.txs, tags: f.tags }
}

/// A child value merges under its name with duplicate-name promotion: a
/// second same-named sibling turns the entry into an array, later ones
/// append, and document order is kept.
pub open spec fn frame_insert_child(f: FrameM, name: Seq<char>, v: JVal) -> FrameM {
    let merged = match entry_get(f.node, name) {
        Option::Some(JVal::Arr(vs)) => JVal::Arr(vs.push(v)),
        Option::Some(o) => JVal::Arr(seq![o, v]),
        Option::None => v,
    };
    FrameM {
        node: entry_set(entry_rm(f.node, name), name, merged),
        obs: f.obs,
        txs: f.txs,
        tags: f.tags,
    }
}

/// The segments' values, in their interleaved document order.
pub open spec fn seg_vals(
    tags: Seq<bool>,
    obs: Seq<Seq<(Seq<char>, JVal)>>,
    txs: Seq<Seq<char>>,
) -> Seq<JVal>
    decreases tags,
{
    if tags.len() == 0 {
        Seq::empty()
    } else if tags[0] {
        seq![JVal::Obj(obs[0])] + seg_vals(tags.drop_first(), obs.drop_first(), txs)
    } else {
        seq![JVal::Str(txs[0])] + seg_vals(tags.drop_first(), obs, txs.drop_first())
    }
}

/// The object segments once the open node is flushed.
pub open spec fn flushed_obs(f: FrameM) -> Seq<Seq<(Seq<char>, JVal)>> {
    if f.node.len() > 0 {
        f.obs.push(f.node)
    } else {
        f.obs
    }
}

/// The segment tags once the open node is flushed.
pub open spec fn flushed_tags(f: FrameM) -> Seq<bool> {
    if f.node.len() > 0 {
        f.tags.push(true)
    } else {
        f.tags
    }
}

/// Finalizing a frame: flush the open node; a single object segment beside
/// at most one text segment folds the text under the reserved text key and
/// becomes that object; otherwise the segments stand in document order and
/// the result is null, the sole value, or an array of them.
pub open spec fn frame_value(f: FrameM) -> JVal {
    let obs = flushed_obs(f);
    let tags = flushed_tags(f);
    if obs.len() == 1 && f.txs.len() <= 1 {
        JVal::Obj(
            if f.txs.len() == 1 {
                entry_set(obs[0], text_key(), JVal::Str(f.txs[0]))
            } else {
                obs[0]
            },
        )
    } else {
        let vs = seg_vals(tags, obs, f.txs);
        if vs.len() == 0 {
            JVal::Null
        } else if vs.len() == 1 {
            vs[0]
        } else {
            JVal::Arr(vs)
        }
    }
}

/// Model of a list of flushed object segments.
pub open spec fn nodes_view(s: Seq<Node>) -> Seq<Seq<(Seq<char>, JVal)>> {
    s.map_values(|n: Node| n@)
}

/// Model of a list of flushed text segments.
pub open spec fn strs_view(s: Seq<String>) -> Seq<Seq<char>> {
    s.map_values(|t: String| t@)
}

/// One element's accumulation state: the open node plus the segments
/// already flushed, in document order.
pub struct Frame {
    node: Node,
    obs: Vec<Node>,
    txs: Vec<String>,
    tags: Vec<bool>,
}

impl View for Frame {
    type V = FrameM;

    closed spec fn view(&self) -> FrameM {
        FrameM {
            node: self.node@,
            obs: nodes_view(self.obs@),
            txs: strs_view(self.txs@),
            tags: self.tags@,
        }
    }
}

impl Frame {
    pub fn new() -> (f: Frame)
        ensures
            f@ == FrameM::empty(),
            frame_wf(f@),
    {
        let f = Frame { node: Node::new(), obs: Vec::new(), txs: Vec::new(), tags: Vec::new() };
        proof {
            assert(f@ =~~= FrameM::empty());
        }
        f
    }

    /// Records one run of character data as its own segment, flushing the
    /// open node first so that interleaved order is preserved.
    pub fn insert_text(&mut self, t: &String)
        requires
            frame_wf(old(self)@),
        ensures
            final(self)@ == frame_insert_text(old(self)@, t@),
            frame_wf(final(self)@),
    {
        let ghost f0 = self@;
        if !self.node.is_empty() {
            let mut taken = Node::new();
            core::mem::swap(&mut self.node, &mut taken);
            self.obs.push(taken);
            self.tags.push(true);
            proof {
                lemma_count_true_push(f0.tags, true);
                assert(nodes_view(self.obs@) =~= f0.obs.push(f0.node));
            }
        }
        self.txs.push(t.clone());
        self.tags.push(false);
        proof {
            if f0.node.len() > 0 {
                lemma_count_true_push(f0.tags.push(true), false);
            } else {
                lemma_count_true_push(f0.tags, false);
            }
            assert(strs_view(self.txs@) =~= f0.txs.push(t@));
            assert(self@ =~~= frame_insert_text(f0, t@));
        }
    }

    /// Concatenates one CDATA section's content onto the open node.
    pub fn insert_cdata(&mut self, d: &String)
        requires
            frame_wf(old(self)@),
        ensures
            final(self)@ == frame_insert_cdata(old(self)@, d@),
            frame_wf(final(self)@),
    {
        let ghost f0 = self@;
        let key = cdata_key_string();
        match self.node.get_index(&key) {
            Option::Some(i) => {
                proof {
                    lemma_entry_at_index(f0.node, key@, JVal::Null, i as int);
                }
                let nv = match self.node.value_at(i) {
                    Value::Str(s) => {
                        let mut ns = s.clone();
                        ns.append(d.as_str());
                        ns
                    },
                    _ => d.clone(),
                };
                self.node.set(key, Value::Str(nv));
            },
            Option::None => {
                proof {
                    lemma_entry_absent(f0.node, key@, JVal::Null);
                }
                self.node.set(key, Value::Str(d.clone()));
            },
        }
        proof {
            assert(self@ =~~= frame_insert_cdata(f0, d@));
        }
    }

    /// Merges a finished child value under its element name, promoting a
    /// repeated name to an array in document order.
    pub fn insert_child(&mut self, name: String, v: Value)
        requires
            frame_wf(old(self)@),
        ensures
            final(self)@ == frame_insert_child(old(self)@, name@, jval(v)),
            frame_wf(final(self)@),
    {
        let ghost f0 = self@;
        match self.node.remove(&name) {
            Option::Some(existing) => {
                match existing {
                    Value::Arr(mut vs) => {
                        proof {
                            lemma_vals_view(vs@);
                            lemma_vals_view(vs@.push(v));
                        }
                        let ghost vs0 = vs@;
                        vs.push(v);
                        proof {
                            lemma_vals_view(vs0);
                            lemma_vals_view(vs@);
                            assert(vals_view(vs@) =~= vals_view(vs0).push(jval(v)));
                        }
                        self.node.set(name, Value::Arr(vs));
                    },
                    other => {
                        let ghost o0 = other;
                        let ghost v0 = v;
                        let mut vs: Vec<Value> = Vec::new();
                        vs.push(other);
                        vs.push(v);
                        proof {
                            lemma_vals_view(vs@);
                            assert(!(jval(o0) is Arr));
                            assert(vals_view(vs@) =~= seq![jval(o0), jval(v0)]);
                        }
                        self.node.set(name, Value::Arr(vs));
                    },
                }
            },
            Option::None => {
                proof {
                    lemma_entry_rm_absent(f0.node, name@);
                }
                self.node.set(name, v);
            },
        }
        proof {
            assert(self@ =~~= frame_insert_child(f0, name@, jval(v)));
        }
    }
}

/// `count_true` stays between zero and the length.
pub proof fn lemma_count_true_bounds(s: Seq<bool>)
    ensures
        0 <= count_true(s) <= s.len(),
    decreases s,
{
    if s.len() > 0 {
        lemma_count_true_bounds(s.drop_first());
    }
}

impl Frame {
    /// Consumes the frame into its one output value.
    pub fn finalize(self) -> (v: Value)
        requires
            frame_wf(self@),
        ensures
            jval(v) == frame_value(self@),
    {
        let ghost f0 = self@;
        let Frame { node, mut obs, mut txs, mut tags } = self;
        if !node.is_empty() {
            obs.push(node);
            tags.push(true);
            proof {
                lemma_count_true_push(f0.tags, true);
                assert(nodes_view(obs@) =~= f0.obs.push(f0.node));
            }
        }
        let ghost obs1 = if f0.node.len() > 0 {
            f0.obs.push(f0.node)
        } else {
            f0.obs
        };
        let ghost tags1 = if f0.node.len() > 0 {
            f0.tags.push(true)
        } else {
            f0.tags
        };
        proof {
            assert(nodes_view(obs@) == obs1);
            assert(tags@ == tags1);
            assert(strs_view(txs@) == f0.txs);
            assert(count_true(tags1) == obs1.len());
            assert(tags1.len() - count_true(tags1) == f0.txs.len());
        }
        if obs.len() == 1 && txs.len() <= 1 {
            let mut ob = obs.pop().unwrap();
            if txs.len() == 1 {
                let t = txs.pop().unwrap();
                ob.set(text_key_string(), Value::Str(t));
            }
            let v = Value::Obj(ob.into_entries());
            v
        } else {
            let mut vals: Vec<Value> = Vec::new();
            let n = tags.len();
            let mut k: usize = 0;
            proof {
                assert(tags1.skip(0) =~= tags1);
                assert(vals_view(vals@) + seg_vals(tags1, obs1, f0.txs) =~= seg_vals(
                    tags1,
                    obs1,
                    f0.txs,
                ));
            }
            while k < n
                invariant
                    n == tags1.len(),
                    tags@ == tags1,
                    k <= n,
                    seg_vals(tags1, obs1, f0.txs) =~= vals_view(vals@) + seg_vals(
                        tags1.skip(k as int),
                        nodes_view(obs@),
                        strs_view(txs@),
                    ),
                    count_true(tags1.skip(k as int)) == obs@.len(),
                    tags1.skip(k as int).len() - count_true(tags1.skip(k as int)) == txs@.len(),
                decreases n - k,
            {
                let ghost co = nodes_view(obs@);
                let ghost ct = strs_view(txs@);
                let ghost cv = vals_view(vals@);
                proof {
                    assert(tags1.skip(k as int).len() > 0);
                    assert(tags1.skip(k as int)[0] == tags1[k as int]);
                    assert(tags1.skip(k as int).drop_first() =~= tags1.skip(k as int + 1));
                    lemma_count_true_bounds(tags1.skip(k as int).drop_first());
                    lemma_vals_view(vals@);
                }
                if tags[k] {
                    proof {
                        assert(count_true(tags1.skip(k as int)) >= 1);
                        assert(obs@.len() >= 1);
                    }
                    let nd = obs.remove(0);
                    let ghost ndm = nd@;
                    vals.push(Value::Obj(nd.into_entries()));
                    proof {
                        lemma_vals_view(vals@);
                        assert(nodes_view(obs@) =~= co.drop_first());
                        assert(vals_view(vals@) =~= cv.push(JVal::Obj(ndm)));
                        assert(seg_vals(tags1.skip(k as int), co, ct) =~= seq![
                            JVal::Obj(co[0]),
                        ] + seg_vals(tags1.skip(k as int + 1), co.drop_first(), ct));
                        assert(cv + seg_vals(tags1.skip(k as int), co, ct) =~= vals_view(vals@)
                            + seg_vals(tags1.skip(k as int + 1), nodes_view(obs@), strs_view(txs@)));
                    }
                } else {
                    proof {
                        assert(count_true(tags1.skip(k as int)) <= tags1.skip(k as int).len() - 1)
                            by {
                            lemma_count_true_bounds(tags1.skip(k as int).drop_first());
                        }
                        assert(txs@.len() >= 1);
                    }
                    let t = txs.remove(0);
                    let ghost tm = t@;
                    vals.push(Value::Str(t));
                    proof {
                        lemma_vals_view(vals@);
                        assert(strs_view(txs@) =~= ct.drop_first());
                        assert(vals_view(vals@) =~= cv.push(JVal::Str(tm)));
                        assert(seg_vals(tags1.skip(k as int), co, ct) =~= seq![
                            JVal::Str(ct[0]),
                        ] + seg_vals(tags1.skip(k as int + 1), co, ct.drop_first()));
                        assert(cv + seg_vals(tags1.skip(k as int), co, ct) =~= vals_view(vals@)
                            + seg_vals(tags1.skip(k as int + 1), nodes_view(obs@), strs_view(txs@)));
                    }
                }
                k += 1;
            }
            proof {
                assert(tags1.skip(n as int).len() == 0);
                assert(seg_vals(tags1.skip(n as int), nodes_view(obs@), strs_view(txs@))
                    =~= Seq::<JVal>::empty());
                assert(seg_vals(tags1, obs1, f0.txs) =~= vals_view(vals@));
                lemma_vals_view(vals@);
            }
            if vals.len() == 0 {
                Value::Null
            } else if vals.len() == 1 {
                let v = vals.pop().unwrap();
                proof {
                    assert(jval(v) == vals_view(vals@.push(v))[0]);
                }
                v
            } else {
                Value::Arr(vals)
            }
        }
    }
}

/// The reserved CDATA key as an owned string.
fn cdata_key_string() -> (s: String)
    ensures
        s@ == cdata_key(),
{
    let s = String::from_str("#cdata");
    s
}

/// The reserved text key as an owned string.
fn text_key_string() -> (s: String)
    ensures
        s@ == text_key(),
{
    let s = String::from_str("#text");
    s
}

/// Pushing a tag extends the object-segment count by the tag's kind.
pub proof fn lemma_count_true_push(s: Seq<bool>, b: bool)
    ensures
        count_true(s.push(b)) == count_true(s) + (if b {
            1int
        } else {
            0int
        }),
    decreases s,
{
    if s.len() == 0 {
        assert(s.push(b).drop_first() =~= s);
    } else {
        lemma_count_true_push(s.drop_first(), b);
        assert(s.push(b).drop_first() =~= s.drop_first().push(b));
    }
}

} // verus!
