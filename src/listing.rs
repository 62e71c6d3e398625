//! The listing parser: a state machine over the events of a multi-status
//! document that collects one [`FileInfo`] per entry, in document order.
use vstd::prelude::*;

use crate::file::{blank_view, consistent, field_for, field_of, with_field, Field, FileInfo, FileView};
use crate::text::same_text;

verus! {

/// What the XML reader reports, as the parser sees it.
#[derive(Debug)]
pub enum XmlEvent {
    /// A start tag, with its qualified name.
    Open(String),
    /// An end tag, with its qualified name.
    Close(String),
    /// The text content of the element whose start tag came just before.
    Text(String),
    /// The end of the document.
    End,
    /// Anything else: comments, declarations, text the parser did not ask for.
    Other,
    /// The document is not well-formed XML; the reader's description.
    Malformed(String),
}

/// Qualified name of the element that holds one entry.
pub open spec fn response_tag() -> Seq<char> {
    "D:response"@
}

/// The message of the error for a size that is not a number.
pub open spec fn size_error() -> Seq<char> {
    "Failed to parse size"@
}

/// The parser's state: the entries finished so far, the entry being read (if
/// any), and the property whose text comes next (if any).
pub struct ListingView {
    pub files: Seq<FileView>,
    pub current: Option<FileView>,
    pub pending: Option<Field>,
}

/// Where the parser stands after some events: still reading, or finished
/// with a result.
pub enum Progress {
    Going(ListingView),
    Done(Result<Seq<FileView>, Seq<char>>),
}

pub open spec fn start_view() -> ListingView {
    ListingView { files: Seq::empty(), current: None, pending: None }
}

/// The parser's state after event `e` in state `s`.
pub open spec fn step(s: ListingView, e: XmlEvent) -> Progress {
    match e {
        XmlEvent::Malformed(m) => Progress::Done(Err(m@)),
        XmlEvent::End => Progress::Done(Ok(s.files)),
        XmlEvent::Open(tag) => match s.current {
            None => if tag@ == response_tag() {
                Progress::Going(ListingView { current: Some(blank_view()), pending: None, ..s })
            } else {
                Progress::Going(ListingView { pending: None, ..s })
            },
            Some(_) => Progress::Going(ListingView { pending: field_for(tag@), ..s }),
        },
        XmlEvent::Text(t) => match s.current {
            Some(f) => match s.pending {
                Some(field) => match with_field(f, field, t@) {
                    Some(g) => Progress::Going(
                        ListingView { current: Some(g), pending: None, ..s },
                    ),
                    None => Progress::Done(Err(size_error())),
                },
                None => Progress::Going(ListingView { pending: None, ..s }),
            },
            None => Progress::Going(ListingView { pending: None, ..s }),
        },
        XmlEvent::Close(tag) => match s.current {
            Some(f) => if tag@ == response_tag() {
                Progress::Going(ListingView { files: s.files.push(f), current: None, pending: None })
            } else {
                Progress::Going(ListingView { pending: None, ..s })
            },
            None => Progress::Going(ListingView { pending: None, ..s }),
        },
        XmlEvent::Other => Progress::Going(ListingView { pending: None, ..s }),
    }
}

/// Where the parser stands after the events `evs`, starting in state `s`.
pub open spec fn advance(s: ListingView, evs: Seq<XmlEvent>) -> Progress
    decreases evs.len(),
{
    if evs.len() == 0 {
        Progress::Going(s)
    } else {
        match advance(s, evs.drop_last()) {
            Progress::Going(t) => step(t, evs.last()),
            Progress::Done(r) => Progress::Done(r),
        }
    }
}

/// The result once the events are used up: the end of the events is the end
/// of the document, and an entry still open is left out.
pub open spec fn outcome(p: Progress) -> Result<Seq<FileView>, Seq<char>> {
    match p {
        Progress::Going(s) => Ok(s.files),
        Progress::Done(r) => r,
    }
}

/// The listing that the events `evs` describe.
pub open spec fn parse_listing(evs: Seq<XmlEvent>) -> Result<Seq<FileView>, Seq<char>> {
    outcome(advance(start_view(), evs))
}

pub open spec fn files_view(v: Seq<FileInfo>) -> Seq<FileView> {
    v.map_values(|f: FileInfo| f@)
}

pub open spec fn result_view(r: Result<Vec<FileInfo>, String>) -> Result<Seq<FileView>, Seq<char>> {
    match r {
        Ok(v) => Ok(files_view(v@)),
        Err(m) => Err(m@),
    }
}

pub open spec fn listing_consistent(s: ListingView) -> bool {
    &&& forall|i: int| 0 <= i < s.files.len() ==> consistent(#[trigger] s.files[i])
    &&& s.current matches Some(f) ==> consistent(f)
}

pub open spec fn progress_consistent(p: Progress) -> bool {
    match p {
        Progress::Going(s) => listing_consistent(s),
        Progress::Done(Ok(fs)) => forall|i: int| 0 <= i < fs.len() ==> consistent(#[trigger] fs[i]),
        Progress::Done(Err(_)) => true,
    }
}

/// The running parser.
pub struct Listing {
    pub files: Vec<FileInfo>,
    pub current: Option<FileInfo>,
    pub pending: Option<Field>,
}

impl View for Listing {
    type V = ListingView;

    open spec fn view(&self) -> ListingView {
        ListingView {
            files: files_view(self.files@),
            current: match self.current {
                Some(f) => Some(f@),
                None => None,
            },
            pending: self.pending,
        }
    }
}

/// The running parser after one event.
pub enum Step {
    Going(Listing),
    Done(Result<Vec<FileInfo>, String>),
}

pub open spec fn step_view(s: Step) -> Progress {
    match s {
        Step::Going(l) => Progress::Going(l@),
        Step::Done(r) => Progress::Done(result_view(r)),
    }
}

pub(crate) proof fn lemma_step_consistent(s: ListingView, e: XmlEvent)
    requires
        listing_consistent(s),
    ensures
        progress_consistent(step(s, e)),
{
    crate::file::lemma_blank_consistent();
    match e {
        XmlEvent::Text(t) => {
            if let Some(f) = s.current {
                if let Some(field) = s.pending {
                    crate::file::lemma_with_field_consistent(f, field, t@);
                }
            }
        },
        XmlEvent::Close(tag) => {
            if let Some(f) = s.current {
                if tag@ == response_tag() {
                    let fs = s.files.push(f);
                    assert forall|i: int| 0 <= i < fs.len() implies consistent(#[trigger] fs[i]) by {
                        if i < s.files.len() {
                            assert(fs[i] == s.files[i]);
                        }
                    }
                }
            }
        },
        _ => {},
    }
}

impl Listing {
    /// A parser that has read nothing yet.
    pub fn new() -> (r: Listing)
        ensures
            r@ == start_view(),
    {
        let files: Vec<FileInfo> = Vec::new();
        let r = Listing { files, current: None, pending: None };
        assert(r@.files =~= Seq::<FileView>::empty());
        r
    }

    /// The listing read so far, as at the end of the document.
    pub fn finish(self) -> (r: Result<Vec<FileInfo>, String>)
        ensures
            result_view(r) == outcome(Progress::Going(self@)),
    {
        Ok(self.files)
    }

    /// Handles one event.
    pub fn step(self, e: XmlEvent) -> (r: Step)
        ensures
            step_view(r) == step(self@, e),
    {
        let Listing { files, current, pending } = self;
        match e {
            XmlEvent::Malformed(m) => Step::Done(Err(m)),
            XmlEvent::End => Step::Done(Ok(files)),
            XmlEvent::Open(tag) => match current {
                None => if same_text(tag.as_str(), "D:response") {
                    let f = FileInfo::blank();
                    Step::Going(Listing { files, current: Some(f), pending: None })
                } else {
                    Step::Going(Listing { files, current: None, pending: None })
                },
                Some(f) => {
                    let field = field_of(tag.as_str());
                    Step::Going(Listing { files, current: Some(f), pending: field })
                },
            },
            XmlEvent::Text(t) => match current {
                Some(f) => match pending {
                    Some(field) => {
                        let mut g = f;
                        if g.set_field(field, t) {
                            Step::Going(Listing { files, current: Some(g), pending: None })
                        } else {
                            Step::Done(Err(String::from_str("Failed to parse size")))
                        }
                    },
                    None => Step::Going(Listing { files, current: Some(f), pending: None }),
                },
                None => Step::Going(Listing { files, current: None, pending: None }),
            },
            XmlEvent::Close(tag) => match current {
                Some(f) => if same_text(tag.as_str(), "D:response") {
                    let mut files = files;
                    let ghost old_files = files@;
                    files.push(f);
                    assert(files_view(files@) =~= files_view(old_files).push(f@));
                    Step::Going(Listing { files, current: None, pending: None })
                } else {
                    Step::Going(Listing { files, current: Some(f), pending: None })
                },
                None => Step::Going(Listing { files, current: None, pending: None }),
            },
            XmlEvent::Other => Step::Going(Listing { files, current, pending: None }),
        }
    }
}

/// Parses a listing from the events of its document, in order. A sequence
/// without an [`XmlEvent::End`] ends as if one followed it.
pub fn parse_events(events: Vec<XmlEvent>) -> (r: Result<Vec<FileInfo>, String>)
    ensures
        result_view(r) == parse_listing(events@),
        r matches Ok(fs) ==> forall|i: int| 0 <= i < fs@.len() ==> consistent(#[trigger] fs@[i]@),
{
    let ghost all = events@;
    let mut rest = events;
    let mut listing = Listing::new();
    let ghost mut seen: Seq<XmlEvent> = Seq::empty();
    while rest.len() > 0
        invariant
            all == events@,
            all == seen + rest@,
            advance(start_view(), seen) == Progress::Going(listing@),
            listing_consistent(listing@),
        decreases rest.len(),
    {
        let e = rest.remove(0);
        proof {
            lemma_step_consistent(listing@, e);
            let next = seen.push(e);
            assert(next.drop_last() =~= seen);
            assert(all == next + rest@);
            seen = next;
        }
        match listing.step(e) {
            Step::Going(l) => {
                listing = l;
            },
            Step::Done(r) => {
                proof {
                    lemma_advance_stops(start_view(), seen, rest@);
                    lemma_files_view_index(r);
                }
                return r;
            },
        }
    }
    assert(seen =~= all);
    let r = listing.finish();
    proof {
        lemma_files_view_index(r);
    }
    r
}

/// The records of a result are the views of its elements.
pub(crate) proof fn lemma_files_view_index(r: Result<Vec<FileInfo>, String>)
    ensures
        r matches Ok(fs) ==> (result_view(r) matches Ok(vs) && vs.len() == fs@.len() && forall|i: int|
            0 <= i < fs@.len() ==> vs[i] == #[trigger] fs@[i]@),
{
}

/// Once the parser has finished, later events change nothing.
pub proof fn lemma_advance_stops(s: ListingView, a: Seq<XmlEvent>, b: Seq<XmlEvent>)
    requires
        advance(s, a) is Done,
    ensures
        advance(s, a + b) == advance(s, a),
    decreases b.len(),
{
    if b.len() == 0 {
        assert(a + b =~= a);
    } else {
        lemma_advance_stops(s, a, b.drop_last());
        assert((a + b).drop_last() =~= a + b.drop_last());
    }
}

} // verus!
