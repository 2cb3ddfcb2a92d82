//! The recursive descent driver and its functional specification.
//!
//! `run` is the mathematical account of the whole conversion: it walks the
//! event sequence one frame at a time, recursing for each child element,
//! merging attributes one level up, and finalizing every frame into one
//! value. The executable driver is proved to return exactly what `run`
//! says, and the depth guard is the only way the conversion can fail.
use vstd::prelude::*;

use crate::events::{attrs_view, ev_view, evs_view, Ev, XmlEvent};
use crate::node::{
    frame_insert_cdata, frame_insert_child, frame_insert_text, frame_value, frame_wf, text_key,
    Frame, FrameM, Node,
};
use crate::value::{entry_set, jval, JVal, Value};

verus! {

/// The one hard failure of a conversion: element nesting deeper than the
/// recursion bound allows.
#[derive(Debug)]
pub struct Error {}

/// How deep elements may nest before the conversion fails instead of
/// recursing further.
pub const DEPTH_LIMIT: u64 = 128;

/// An attribute's reserved key: the name with `@` in front.
pub open spec fn at_key(k: Seq<char>) -> Seq<char> {
    seq!['@'] + k
}

/// Folds a decoded attribute list into an entry list, in attribute order.
pub open spec fn attrs_into(
    m: Seq<(Seq<char>, JVal)>,
    attrs: Seq<(Seq<char>, Seq<char>)>,
) -> Seq<(Seq<char>, JVal)>
    decreases attrs,
{
    if attrs.len() == 0 {
        m
    } else {
        attrs_into(
            entry_set(m, at_key(attrs[0].0), JVal::Str(attrs[0].1)),
            attrs.drop_first(),
        )
    }
}

/// Merges a child's attributes with its finished value: into the value
/// itself when it is an object; otherwise, when attributes exist, into a
/// wrapper object that also carries a string child under the text key.
pub open spec fn attach_attrs(attrs: Seq<(Seq<char>, Seq<char>)>, child: JVal) -> JVal {
    match child {
        JVal::Obj(m) => JVal::Obj(attrs_into(m, attrs)),
        _ => {
            if attrs.len() == 0 {
                child
            } else {
                let am = attrs_into(Seq::empty(), attrs);
                match child {
                    JVal::Str(t) => JVal::Obj(entry_set(am, text_key(), child)),
                    _ => JVal::Obj(am),
                }
            }
        },
    }
}

/// Keeps a resume position inside the frame it belongs to; real runs never
/// leave the interval, which a lemma states.
pub open spec fn clamp_pos(n: int, lo: int, hi: int) -> int {
    if n < lo {
        lo
    } else if n > hi {
        hi
    } else {
        n
    }
}

/// One frame of the conversion, from `pos` on: consumes events until the
/// element closes or input ends, and yields the frame's value with the
/// position after the consumed events. Fails exactly when an element would
/// open deeper than `limit`.
pub open spec fn run(evs: Seq<Ev>, pos: int, depth: int, limit: int, f: FrameM) -> Result<
    (JVal, int),
    (),
>
    decreases evs.len() - pos,
{
    if pos < 0 || pos >= evs.len() {
        Result::Ok((frame_value(f), pos))
    } else {
        match evs[pos] {
            Ev::Open(name, attrs) => {
                if depth + 1 > limit {
                    Result::Err(())
                } else {
                    match run(evs, pos + 1, depth + 1, limit, FrameM::empty()) {
                        Result::Err(e) => Result::Err(e),
                        Result::Ok((child, n0)) => {
                            let next = clamp_pos(n0, pos + 1, evs.len() as int);
                            run(
                                evs,
                                next,
                                depth,
                                limit,
                                frame_insert_child(f, name, attach_attrs(attrs, child)),
                            )
                        },
                    }
                }
            },
            Ev::Text(t) => run(evs, pos + 1, depth, limit, frame_insert_text(f, t)),
            Ev::CData(d) => run(evs, pos + 1, depth, limit, frame_insert_cdata(f, d)),
            Ev::Close => Result::Ok((frame_value(f), pos + 1)),
            Ev::Eof => Result::Ok((frame_value(f), pos + 1)),
            Ev::Skip => run(evs, pos + 1, depth, limit, f),
        }
    }
}

/// A successful run resumes past where it started and inside the input, so
/// the clamp in `run` never changes a real resume position.
pub proof fn lemma_run_next(evs: Seq<Ev>, pos: int, depth: int, limit: int, f: FrameM)
    requires
        0 <= pos <= evs.len(),
    ensures
        match run(evs, pos, depth, limit, f) {
            Result::Ok((v, n)) => pos <= n <= evs.len() && (pos < evs.len() ==> pos < n),
            Result::Err(e) => true,
        },
    decreases evs.len() - pos,
{
    if pos < evs.len() {
        match evs[pos] {
            Ev::Open(name, attrs) => {
                if depth + 1 <= limit {
                    lemma_run_next(evs, pos + 1, depth + 1, limit, FrameM::empty());
                    match run(evs, pos + 1, depth + 1, limit, FrameM::empty()) {
                        Result::Err(e) => {},
                        Result::Ok((child, n0)) => {
                            let next = clamp_pos(n0, pos + 1, evs.len() as int);
                            lemma_run_next(
                                evs,
                                next,
                                depth,
                                limit,
                                frame_insert_child(f, name, attach_attrs(attrs, child)),
                            );
                        },
                    }
                }
            },
            Ev::Text(t) => {
                lemma_run_next(evs, pos + 1, depth, limit, frame_insert_text(f, t));
            },
            Ev::CData(d) => {
                lemma_run_next(evs, pos + 1, depth, limit, frame_insert_cdata(f, d));
            },
            Ev::Close => {},
            Ev::Eof => {},
            Ev::Skip => {
                lemma_run_next(evs, pos + 1, depth, limit, f);
            },
        }
    }
}

/// Running from an offset into a stream is running the suffix from its
/// start: the value agrees and the resume position shifts by the offset.
pub proof fn lemma_run_shift(evs: Seq<Ev>, pos: int, k: int, depth: int, limit: int, f: FrameM)
    requires
        0 <= pos,
        0 <= k,
        pos + k <= evs.len(),
    ensures
        match (run(evs, pos + k, depth, limit, f), run(evs.skip(pos), k, depth, limit, f)) {
            (Result::Ok(p1), Result::Ok(p2)) => p1.0 == p2.0 && p1.1 == p2.1 + pos,
            (Result::Err(e1), Result::Err(e2)) => true,
            _ => false,
        },
    decreases evs.len() - (pos + k),
{
    let s = evs.skip(pos);
    assert(s.len() == evs.len() - pos);
    if pos + k < evs.len() {
        assert(evs[pos + k] == s[k]);
        match evs[pos + k] {
            Ev::Open(name, attrs) => {
                if depth + 1 <= limit {
                    lemma_run_shift(evs, pos, k + 1, depth + 1, limit, FrameM::empty());
                    match run(evs, pos + k + 1, depth + 1, limit, FrameM::empty()) {
                        Result::Err(e) => {},
                        Result::Ok((child, n0)) => {
                            let f2 = frame_insert_child(f, name, attach_attrs(attrs, child));
                            let n1 = clamp_pos(n0, pos + k + 1, evs.len() as int);
                            let n2 = clamp_pos(n0 - pos, k + 1, s.len() as int);
                            assert(n1 == n2 + pos);
                            lemma_run_shift(evs, pos, n2, depth, limit, f2);
                        },
                    }
                }
            },
            Ev::Text(t) => {
                lemma_run_shift(evs, pos, k + 1, depth, limit, frame_insert_text(f, t));
            },
            Ev::CData(d) => {
                lemma_run_shift(evs, pos, k + 1, depth, limit, frame_insert_cdata(f, d));
            },
            Ev::Close => {},
            Ev::Eof => {},
            Ev::Skip => {
                lemma_run_shift(evs, pos, k + 1, depth, limit, f);
            },
        }
    }
}

/// An attribute's reserved key as an owned string.
fn at_key_string(k: &String) -> (r: String)
    ensures
        r@ == at_key(k@),
{
    let mut s = String::from_str("@");
    s.append(k.as_str());
    proof {
        reveal_strlit("@");
        assert(s@ =~= seq!['@'] + k@);
    }
    s
}

/// Folds a decoded attribute list into a node, in attribute order.
fn attrs_into_node(nd: &mut Node, attrs: &Vec<(String, String)>)
    ensures
        final(nd)@ == attrs_into(old(nd)@, attrs_view(attrs@)),
{
    let ghost m0 = nd@;
    let ghost av = attrs_view(attrs@);
    let n = attrs.len();
    let mut i: usize = 0;
    proof {
        assert(av.skip(0) =~= av);
    }
    while i < n
        invariant
            n == attrs@.len(),
            i <= n,
            av == attrs_view(attrs@),
            av.len() == n,
            attrs_into(m0, av) == attrs_into(nd@, av.skip(i as int)),
        decreases n - i,
    {
        let ghost mcur = nd@;
        let key = at_key_string(&attrs[i].0);
        let v = attrs[i].1.clone();
        nd.set(key, Value::Str(v));
        proof {
            assert(av.skip(i as int)[0] == av[i as int]);
            assert(av[i as int] == (attrs@[i as int].0@, attrs@[i as int].1@));
            assert(av.skip(i as int).drop_first() =~= av.skip(i as int + 1));
            assert(nd@ == entry_set(mcur, at_key(av[i as int].0), JVal::Str(av[i as int].1)));
        }
        i += 1;
    }
    proof {
        assert(av.skip(n as int).len() == 0);
    }
}

/// Merges a child element's decoded attributes with its finished value;
/// what comes back is what stands under the element's name in the parent.
pub fn merge_attrs(attrs: &Vec<(String, String)>, child: Value) -> (r: Value)
    ensures
        jval(r) == attach_attrs(attrs_view(attrs@), jval(child)),
{
    let ghost c0 = jval(child);
    match child {
        Value::Obj(es) => {
            let mut nd = Node::from_entries(es);
            attrs_into_node(&mut nd, attrs);
            Value::Obj(nd.into_entries())
        },
        other => {
            if attrs.len() == 0 {
                proof {
                    assert(attrs_view(attrs@).len() == 0);
                }
                other
            } else {
                let ghost o0 = other;
                let mut am = Node::new();
                attrs_into_node(&mut am, attrs);
                let is_str = match &other {
                    Value::Str(_) => true,
                    _ => false,
                };
                if is_str {
                    am.set(text_key_string(), other);
                    Value::Obj(am.into_entries())
                } else {
                    proof {
                        assert(!(jval(o0) is Str));
                        assert(!(jval(o0) is Obj));
                    }
                    Value::Obj(am.into_entries())
                }
            }
        },
    }
}

/// Reads one frame: consumes events from `pos` until the element closes or
/// input ends, returning the frame's value and the position after it. The
/// result is exactly what `run` says; failure happens exactly when an
/// element would open deeper than `limit`.
fn parse_frame(events: &Vec<XmlEvent>, pos: usize, depth: u64, limit: u64) -> (r: Result<
    (Value, usize),
    Error,
>)
    requires
        pos <= events@.len(),
    ensures
        match r {
            Result::Ok(p) => run(
                evs_view(events@),
                pos as int,
                depth as int,
                limit as int,
                FrameM::empty(),
            ) == Result::<(JVal, int), ()>::Ok((jval(p.0), p.1 as int)) && pos <= p.1
                <= events@.len(),
            Result::Err(e) => run(
                evs_view(events@),
                pos as int,
                depth as int,
                limit as int,
                FrameM::empty(),
            ) is Err,
        },
    decreases events@.len() - pos,
{
    let ghost evs = evs_view(events@);
    let n = events.len();
    let mut frame = Frame::new();
    let mut cur: usize = pos;
    while cur < n
        invariant
            n == events@.len(),
            evs == evs_view(events@),
            evs.len() == n,
            pos <= cur <= n,
            frame_wf(frame@),
            run(evs, pos as int, depth as int, limit as int, FrameM::empty()) == run(
                evs,
                cur as int,
                depth as int,
                limit as int,
                frame@,
            ),
        decreases n - cur,
    {
        proof {
            assert(evs[cur as int] == ev_view(events@[cur as int]));
        }
        let ghost fcur = frame@;
        match &events[cur] {
            XmlEvent::Open { name, attrs } => {
                if depth >= limit {
                    return Result::Err(Error {  });
                }
                match parse_frame(events, cur + 1, depth + 1, limit) {
                    Result::Err(e) => {
                        return Result::Err(e);
                    },
                    Result::Ok((child, next)) => {
                        proof {
                            lemma_run_next(
                                evs,
                                cur as int + 1,
                                depth as int + 1,
                                limit as int,
                                FrameM::empty(),
                            );
                            assert(clamp_pos(next as int, cur as int + 1, evs.len() as int)
                                == next as int);
                        }
                        let merged = merge_attrs(attrs, child);
                        frame.insert_child(name.clone(), merged);
                        cur = next;
                    },
                }
            },
            XmlEvent::Text { text } => {
                frame.insert_text(text);
                cur = cur + 1;
            },
            XmlEvent::CData { data } => {
                frame.insert_cdata(data);
                cur = cur + 1;
            },
            XmlEvent::Close => {
                let v = frame.finalize();
                return Result::Ok((v, cur + 1));
            },
            XmlEvent::Eof => {
                let v = frame.finalize();
                return Result::Ok((v, cur + 1));
            },
            XmlEvent::Skip => {
                cur = cur + 1;
            },
        }
    }
    let v = frame.finalize();
    Result::Ok((v, cur))
}

/// Converts a whole event stream, starting at the given nesting depth:
/// the verified core of the conversion. The result is what `run` says of
/// the stream; it fails exactly when elements nest deeper than `limit`.
pub fn events_to_value(events: &Vec<XmlEvent>, depth: u64, limit: u64) -> (r: Result<Value, Error>)
    ensures
        match run(evs_view(events@), 0, depth as int, limit as int, FrameM::empty()) {
            Result::Ok(p) => r is Ok && jval(r->Ok_0) == p.0,
            Result::Err(e) => r is Err,
        },
{
    match parse_frame(events, 0, depth, limit) {
        Result::Ok(p) => Result::Ok(p.0),
        Result::Err(e) => Result::Err(e),
    }
}

/// The reserved text key as an owned string.
fn text_key_string() -> (s: String)
    ensures
        s@ == text_key(),
{
    String::from_str("#text")
}

/// Whether a result is the conversion's outcome on the given event stream,
/// read as one frame at the given starting depth.
pub open spec fn run_matches(evs: Seq<Ev>, depth: int, r: Result<Value, Error>) -> bool {
    match run(evs, 0, depth, DEPTH_LIMIT as int, FrameM::empty()) {
        Result::Ok(p) => r is Ok && jval(r->Ok_0) == p.0,
        Result::Err(e) => r is Err,
    }
}

} // verus!
