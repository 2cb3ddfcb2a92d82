//! The event source: the trusted boundary around the `quick-xml` reader.
//!
//! Everything lexical — tokenizing raw XML into structural events, decoding
//! entities, expanding empty elements into open/close pairs, trimming text —
//! is the reader's business. The wrappers here turn its events into the
//! plain decoded values of `XmlEvent`, dropping any fragment that fails to
//! decode. Tokenizing an in-memory string under the fixed configuration
//! depends on the string alone, so the stream it yields is given a name,
//! `events_of`, and a reader's unconsumed part a name, `remaining`: the
//! conversion's contracts then pin the result of the given document, not
//! merely of some stream.
use vstd::prelude::*;

use quick_xml::events::{BytesCData, BytesStart, BytesText, Event};
use quick_xml::Reader;

use crate::convert::{
    lemma_run_next, lemma_run_shift, merge_attrs, run, run_matches, Error, DEPTH_LIMIT,
};
use crate::events::{attrs_view, ev_view, Ev, XmlEvent};
use crate::node::{frame_value, frame_wf, Frame, FrameM};
use crate::value::{jval, JVal, Value};

verus! {

#[verifier::external_type_specification]
#[verifier::external_body]
#[verifier::reject_recursive_types(R)]
pub struct ExReader<R>(Reader<R>);

#[verifier::external_type_specification]
#[verifier::external_body]
pub struct ExBytesStart<'a>(BytesStart<'a>);

#[verifier::external_type_specification]
#[verifier::external_body]
pub struct ExBytesText<'a>(BytesText<'a>);

#[verifier::external_type_specification]
#[verifier::external_body]
pub struct ExBytesCData<'a>(BytesCData<'a>);

/// The converted events that tokenizing a document yields, up to the first
/// end of input. Under the configuration `reader_for` fixes, this depends
/// on the document's characters alone.
pub uninterp spec fn events_of(s: Seq<char>) -> Seq<Ev>;

/// The converted events a reader will still hand out through `next_event`
/// before it reports end of input; once they are consumed it reports end
/// of input forever.
pub uninterp spec fn remaining(r: Reader<&[u8]>) -> Seq<Ev>;

/// Relies on `quick_xml::Reader::from_str` and its configuration: empty
/// elements arrive expanded into open/close pairs, and surrounding
/// whitespace in text runs is trimmed before events reach the conversion.
/// Tokenizing is deterministic over the string, which `events_of` names.
#[verifier::external_body]
fn reader_for<'a>(xml: &'a str) -> (r: Reader<&'a [u8]>)
    ensures
        remaining(r) == events_of(xml@),
{
    let mut reader = Reader::from_str(xml);
    let config = reader.config_mut();
    config.expand_empty_elements = true;
    config.trim_text(true);
    reader
}

/// Relies on `quick_xml::Reader::read_event_into`: one lexical event per
/// call, `Eof` at and after the end of input. Each variant is converted to
/// its plain form; events the conversion ignores, and read errors, become
/// `Skip`. The call pops the first of the reader's `remaining` events.
#[verifier::external_body]
fn next_event<'a>(reader: &mut Reader<&'a [u8]>) -> (e: XmlEvent)
    ensures
        remaining(*old(reader)).len() == 0 ==> ev_view(e) == Ev::Eof && remaining(*final(reader))
            == remaining(*old(reader)),
        remaining(*old(reader)).len() > 0 ==> ev_view(e) == remaining(*old(reader))[0] && remaining(
            *final(reader),
        ) == remaining(*old(reader)).drop_first(),
{
    let mut buf = Vec::new();
    match reader.read_event_into(&mut buf) {
        Ok(Event::Start(e)) => open_of(&e),
        Ok(Event::Text(e)) => text_of(&e),
        Ok(Event::CData(e)) => cdata_of(e),
        Ok(Event::End(_)) => XmlEvent::Close,
        Ok(Event::Eof) => XmlEvent::Eof,
        _ => XmlEvent::Skip,
    }
}

/// Relies on `quick_xml::events::BytesStart`: `name` is the element name's
/// raw bytes, `attributes` the decoded attribute pairs in document order
/// (`Attribute::unescape_value` resolves entity escapes). A name or
/// attribute fragment that is not UTF-8 is dropped; a dropped name drops
/// the whole event.
#[verifier::external_body]
fn open_of(e: &BytesStart<'_>) -> (r: XmlEvent) {
    match String::from_utf8(e.name().into_inner().to_vec()) {
        Ok(name) => {
            let attrs = e
                .attributes()
                .filter_map(|a| a.ok())
                .filter_map(|a| {
                    let k = String::from_utf8(a.key.into_inner().to_vec()).ok()?;
                    let v = a.unescape_value().ok()?;
                    Some((k, v.into_owned()))
                })
                .collect();
            XmlEvent::Open { name, attrs }
        },
        Err(_) => XmlEvent::Skip,
    }
}

/// Relies on `quick_xml::events::BytesText::unescape`: the decoded text of
/// one character-data run, entity escapes resolved. A run that fails to
/// decode is dropped.
#[verifier::external_body]
fn text_of(e: &BytesText<'_>) -> (r: XmlEvent) {
    match e.unescape() {
        Ok(t) => XmlEvent::Text { text: t.into_owned() },
        Err(_) => XmlEvent::Skip,
    }
}

/// Relies on `quick_xml::events::BytesCData::escape` followed by
/// `BytesText::unescape`: together they hand the section's literal content
/// back decoded. A section that fails to decode is dropped.
#[verifier::external_body]
fn cdata_of(e: BytesCData<'_>) -> (r: XmlEvent) {
    match e.escape().and_then(|t| t.unescape().map(|d| d.into_owned())) {
        Ok(data) => XmlEvent::CData { data },
        Err(_) => XmlEvent::Skip,
    }
}

/// Reads exactly one frame's extent at the given nesting depth: events are
/// consumed up to and including the close of the innermost open element
/// (or up to end of input), later events are left for the caller, and the
/// frame's value is what `run` says of the reader's stream.
fn read_frame(reader: &mut Reader<&[u8]>, depth: u64, limit: u64) -> (r: Result<Value, Error>)
    ensures
        match run(remaining(*old(reader)), 0, depth as int, limit as int, FrameM::empty()) {
            Result::Ok(p) => r is Ok && jval(r->Ok_0) == p.0 && remaining(*final(reader))
                == remaining(*old(reader)).skip(p.1),
            Result::Err(e) => r is Err,
        },
    decreases remaining(*reader).len(),
{
    let ghost evs0 = remaining(*reader);
    let mut frame = Frame::new();
    let ghost mut cur: int = 0;
    proof {
        assert(evs0.skip(0) =~= evs0);
    }
    loop
        invariant
            0 <= cur <= evs0.len(),
            evs0 == remaining(*old(reader)),
            remaining(*reader) == evs0.skip(cur),
            frame_wf(frame@),
            run(evs0, 0, depth as int, limit as int, FrameM::empty()) == run(
                evs0,
                cur,
                depth as int,
                limit as int,
                frame@,
            ),
        decreases evs0.len() - cur,
    {
        let ghost rem0 = remaining(*reader);
        let ghost fcur = frame@;
        let e = next_event(reader);
        proof {
            if cur < evs0.len() {
                assert(rem0.len() == evs0.len() - cur);
                assert(rem0[0] == evs0[cur]);
                assert(remaining(*reader) =~= evs0.skip(cur + 1));
            }
        }
        match e {
            XmlEvent::Open { name, attrs } => {
                proof {
                    assert(cur < evs0.len());
                    assert(evs0[cur] == Ev::Open(name@, attrs_view(attrs@)));
                }
                if depth >= limit {
                    return Result::Err(Error {  });
                }
                let ghost crun = run(
                    evs0.skip(cur + 1),
                    0,
                    depth as int + 1,
                    limit as int,
                    FrameM::empty(),
                );
                match read_frame(reader, depth + 1, limit) {
                    Result::Err(e2) => {
                        proof {
                            lemma_run_shift(
                                evs0,
                                cur + 1,
                                0,
                                depth as int + 1,
                                limit as int,
                                FrameM::empty(),
                            );
                            assert(run(evs0, cur, depth as int, limit as int, fcur) is Err);
                        }
                        return Result::Err(e2);
                    },
                    Result::Ok(child) => {
                        proof {
                            lemma_run_shift(
                                evs0,
                                cur + 1,
                                0,
                                depth as int + 1,
                                limit as int,
                                FrameM::empty(),
                            );
                            lemma_run_next(
                                evs0,
                                cur + 1,
                                depth as int + 1,
                                limit as int,
                                FrameM::empty(),
                            );
                        }
                        let ghost n2 = crun->Ok_0.1;
                        proof {
                            assert(remaining(*reader) =~= evs0.skip(cur + 1 + n2)) by {
                                assert(remaining(*reader) == evs0.skip(cur + 1).skip(n2));
                                assert(evs0.skip(cur + 1).skip(n2) =~= evs0.skip(cur + 1 + n2));
                            }
                        }
                        let merged = merge_attrs(&attrs, child);
                        frame.insert_child(name, merged);
                        proof {
                            cur = cur + 1 + n2;
                        }
                    },
                }
            },
            XmlEvent::Text { text } => {
                frame.insert_text(&text);
                proof {
                    cur = cur + 1;
                }
            },
            XmlEvent::CData { data } => {
                frame.insert_cdata(&data);
                proof {
                    cur = cur + 1;
                }
            },
            XmlEvent::Close => {
                proof {
                    assert(cur < evs0.len());
                }
                let v = frame.finalize();
                proof {
                    assert(run(evs0, cur, depth as int, limit as int, fcur)
                        == Result::<(JVal, int), ()>::Ok((frame_value(fcur), cur + 1)));
                }
                return Result::Ok(v);
            },
            XmlEvent::Eof => {
                let v = frame.finalize();
                proof {
                    if cur < evs0.len() {
                        assert(run(evs0, cur, depth as int, limit as int, fcur)
                            == Result::<(JVal, int), ()>::Ok((frame_value(fcur), cur + 1)));
                    } else {
                        assert(run(evs0, cur, depth as int, limit as int, fcur)
                            == Result::<(JVal, int), ()>::Ok((frame_value(fcur), cur)));
                    }
                }
                return Result::Ok(v);
            },
            XmlEvent::Skip => {
                proof {
                    cur = cur + 1;
                }
            },
        }
    }
}

/// Reads one element frame from the reader at the given nesting depth:
/// events are consumed for exactly that frame's extent — up to and
/// including its closing event, or to end of input — and later events are
/// left unconsumed for the caller. The frame's attributes are not read
/// here; they belong to the open event the caller already holds and are
/// merged one level up. The result is exactly what the conversion's `run`
/// says of the reader's stream; it fails only when elements would nest
/// deeper than `DEPTH_LIMIT` below the starting depth.
pub fn read(reader: &mut Reader<&[u8]>, depth: u64) -> (r: Result<Value, Error>)
    ensures
        match run(
            remaining(*old(reader)),
            0,
            depth as int,
            DEPTH_LIMIT as int,
            FrameM::empty(),
        ) {
            Result::Ok(p) => r is Ok && jval(r->Ok_0) == p.0 && remaining(*final(reader))
                == remaining(*old(reader)).skip(p.1),
            Result::Err(e) => r is Err,
        },
{
    read_frame(reader, depth, DEPTH_LIMIT)
}

/// Converts a whole XML document into its JSON-shaped value: exactly the
/// conversion's outcome on the document's own event stream. Lexically
/// malformed input is absorbed leniently; the conversion fails only when
/// elements nest deeper than `DEPTH_LIMIT` (callers that need another
/// bound drive `events_to_value` directly, which takes the bound as a
/// parameter).
pub fn to_json(xml: &str) -> (r: Result<Value, Error>)
    ensures
        run_matches(events_of(xml@), 0, r),
{
    let mut reader = reader_for(xml);
    read(&mut reader, 0)
}

} // verus!
