//! Reading a multi-status document with quick-xml and handing its events to
//! the listing parser.
use vstd::prelude::*;

use crate::file::{consistent, FileInfo};
use crate::listing::{
    advance, lemma_files_view_index, lemma_step_consistent, listing_consistent, parse_listing,
    progress_consistent, result_view, start_view, step_view, Listing, Progress, Step, XmlEvent,
};

verus! {

#[verifier::external_type_specification]
#[verifier::external_body]
#[verifier::reject_recursive_types(R)]
pub struct ExReader<R>(quick_xml::Reader<R>);

/// The event that a text-trimming reader on the document `src` reports next,
/// once it has reported the events `before`.
pub uninterp spec fn next_token(src: Seq<char>, before: Seq<XmlEvent>) -> XmlEvent;

/// The text that a text-trimming reader on the document `src` reads up to the
/// end tag named `tag`, once it has reported the events `before`: an
/// [`XmlEvent::Text`], or an [`XmlEvent::Malformed`] with the reader's error.
pub uninterp spec fn text_token(src: Seq<char>, before: Seq<XmlEvent>, tag: Seq<char>) -> XmlEvent;

/// A reader over a document, with the document and the events reported so far.
pub struct XmlReader<'a> {
    reader: quick_xml::Reader<&'a [u8]>,
    src: Ghost<Seq<char>>,
    seen: Ghost<Seq<XmlEvent>>,
}

/// Relies on quick_xml::Reader::from_str: a reader at the start of `src`.
#[verifier::external_body]
fn new_reader<'a>(src: &'a str) -> quick_xml::Reader<&'a [u8]> {
    quick_xml::Reader::from_str(src)
}

/// Relies on quick_xml::Reader::trim_text: whitespace around text is dropped,
/// and text made of whitespace alone produces no event.
#[verifier::external_body]
fn trim_text(reader: &mut quick_xml::Reader<&[u8]>) {
    reader.trim_text(true);
}

pub open spec fn no_error(evs: Seq<XmlEvent>) -> bool {
    forall|i: int| 0 <= i < evs.len() ==> !(#[trigger] evs[i] is Malformed)
}

/// Relies on quick_xml::Reader::read_event: the next event of the document,
/// with the qualified name of a start or end tag, or the reader's error. What
/// the reader reports depends on the document and on what it reported before.
#[verifier::external_body]
fn next_event(rd: &mut XmlReader) -> (r: XmlEvent)
    requires
        no_error(old(rd).seen@),
    ensures
        r == next_token(old(rd).src@, old(rd).seen@),
        final(rd).src@ == old(rd).src@,
        final(rd).seen@ == old(rd).seen@.push(r),
{
    match rd.reader.read_event() {
        Ok(quick_xml::events::Event::Start(e)) => XmlEvent::Open(
            String::from_utf8_lossy(e.name().as_ref()).into_owned(),
        ),
        Ok(quick_xml::events::Event::End(e)) => XmlEvent::Close(
            String::from_utf8_lossy(e.name().as_ref()).into_owned(),
        ),
        Ok(quick_xml::events::Event::Eof) => XmlEvent::End,
        Ok(_) => XmlEvent::Other,
        Err(e) => XmlEvent::Malformed(e.to_string()),
    }
}

/// Relies on quick_xml::Reader::read_text: the raw text of the element just
/// opened, up to the end tag named `tag`, or the reader's error.
#[verifier::external_body]
fn element_text(rd: &mut XmlReader, tag: &str) -> (r: XmlEvent)
    requires
        no_error(old(rd).seen@),
    ensures
        r == text_token(old(rd).src@, old(rd).seen@, tag@),
        r is Text || r is Malformed,
        final(rd).src@ == old(rd).src@,
        final(rd).seen@ == old(rd).seen@.push(r),
{
    match rd.reader.read_text(quick_xml::name::QName(tag.as_bytes())) {
        Ok(t) => XmlEvent::Text(t.into_owned()),
        Err(e) => XmlEvent::Malformed(e.to_string()),
    }
}

impl<'a> XmlReader<'a> {
    /// A text-trimming reader at the start of `src`.
    fn new(src: &'a str) -> (r: XmlReader<'a>)
        ensures
            r.src@ == src@,
            r.seen@ == Seq::<XmlEvent>::empty(),
    {
        let mut reader = new_reader(src);
        trim_text(&mut reader);
        XmlReader { reader, src: Ghost(src@), seen: Ghost(Seq::empty()) }
    }
}

/// Whether, after the events `p`, the parser asks for the text of the element
/// just opened: `p` ends with a start tag of a property inside an entry.
pub open spec fn asks_text(p: Seq<XmlEvent>) -> bool {
    &&& p.len() > 0
    &&& p.last() is Open
    &&& advance(start_view(), p) matches Progress::Going(s)
    &&& s.pending is Some
}

/// What the reader on `src` reports after the events `p`, given what the
/// parser asks of it.
pub open spec fn expected_event(src: Seq<char>, p: Seq<XmlEvent>) -> XmlEvent {
    if asks_text(p) {
        text_token(src, p, p.last()->Open_0@)
    } else {
        next_token(src, p)
    }
}

/// The events `evs` are those that the reader reports on the document `src`,
/// one after another, as the parser reads it.
pub open spec fn read_from(src: Seq<char>, evs: Seq<XmlEvent>) -> bool {
    forall|i: int| 0 <= i < evs.len() ==> #[trigger] evs[i] == expected_event(src, evs.take(i))
}

proof fn lemma_read_from_push(src: Seq<char>, evs: Seq<XmlEvent>, e: XmlEvent)
    requires
        read_from(src, evs),
        e == expected_event(src, evs),
    ensures
        read_from(src, evs.push(e)),
{
    let next = evs.push(e);
    assert forall|i: int| 0 <= i < next.len() implies #[trigger] next[i] == expected_event(
        src,
        next.take(i),
    ) by {
        if i < evs.len() {
            assert(next.take(i) =~= evs.take(i));
        } else {
            assert(next.take(i) =~= evs);
        }
    }
}

proof fn lemma_going_no_error(evs: Seq<XmlEvent>)
    requires
        advance(start_view(), evs) is Going,
    ensures
        no_error(evs),
    decreases evs.len(),
{
    if evs.len() > 0 {
        let init = evs.drop_last();
        lemma_going_no_error(init);
        assert forall|i: int| 0 <= i < evs.len() implies !(#[trigger] evs[i] is Malformed) by {
            if i < init.len() {
                assert(evs[i] == init[i]);
            }
        }
    }
}

/// Hands one more event to the parser.
fn feed(listing: Listing, e: XmlEvent, Ghost(seen): Ghost<Seq<XmlEvent>>) -> (r: Step)
    requires
        advance(start_view(), seen) == Progress::Going(listing@),
        listing_consistent(listing@),
    ensures
        advance(start_view(), seen.push(e)) == step_view(r),
        progress_consistent(step_view(r)),
{
    proof {
        lemma_step_consistent(listing@, e);
        assert(seen.push(e).drop_last() =~= seen);
    }
    listing.step(e)
}

/// Parses the multi-status document `src` into its entries, in document order.
///
/// The result is the listing of the events that the reader reports on `src`
/// as the parser reads it, up to the event that ends the parse: an entry still
/// open at the end of the document is left out, a size that is not a number
/// or malformed XML fails the whole parse. Every record's name and type agree
/// with its path.
pub fn parse_xml(src: &str) -> (r: Result<Vec<FileInfo>, String>)
    ensures
        exists|evs: Seq<XmlEvent>|
            read_from(src@, evs) && (advance(start_view(), evs) is Done || evs.len() > src@.len())
                && result_view(r) == #[trigger] parse_listing(evs),
        r matches Ok(fs) ==> forall|i: int| 0 <= i < fs@.len() ==> consistent(#[trigger] fs@[i]@),
{
    let mut rd = XmlReader::new(src);
    let mut listing = Listing::new();
    let ghost mut seen: Seq<XmlEvent> = Seq::empty();
    // Every event but the end of the document consumes at least one
    // character, so the reader has reported the end within `n + 1` events.
    let n = src.unicode_len();
    let mut budget: usize = n;
    loop
        invariant
            rd.src@ == src@,
            rd.seen@ == seen,
            n == src@.len(),
            budget <= n,
            seen.len() + budget >= n,
            read_from(src@, seen),
            advance(start_view(), seen) == Progress::Going(listing@),
            listing@.pending is None,
            listing_consistent(listing@),
        decreases budget,
    {
        proof {
            lemma_going_no_error(seen);
        }
        let e = next_event(&mut rd);
        let opened = match &e {
            XmlEvent::Open(tag) => Some(tag.clone()),
            _ => None,
        };
        let ghost ge = e;
        proof {
            lemma_read_from_push(src@, seen, ge);
        }
        match feed(listing, e, Ghost(seen)) {
            Step::Going(l) => {
                listing = l;
                proof {
                    seen = seen.push(ge);
                }
            },
            Step::Done(r) => {
                proof {
                    lemma_files_view_index(r);
                    assert(result_view(r) == parse_listing(seen.push(ge)));
                }
                return r;
            },
        }
        if listing.pending.is_some() {
            if let Some(tag) = opened {
                proof {
                    lemma_going_no_error(seen);
                    assert(asks_text(seen));
                }
                let t = element_text(&mut rd, tag.as_str());
                let ghost gt = t;
                proof {
                    lemma_read_from_push(src@, seen, gt);
                }
                match feed(listing, t, Ghost(seen)) {
                    Step::Going(l) => {
                        listing = l;
                        proof {
                            seen = seen.push(gt);
                        }
                    },
                    Step::Done(r) => {
                        proof {
                            lemma_files_view_index(r);
                            assert(result_view(r) == parse_listing(seen.push(gt)));
                        }
                        return r;
                    },
                }
            }
        }
        if budget == 0 {
            let r = listing.finish();
            proof {
                lemma_files_view_index(r);
                assert(result_view(r) == parse_listing(seen));
            }
            return r;
        }
        budget = budget - 1;
    }
}

} // verus!
