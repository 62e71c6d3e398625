//! Properties of the listing parser, proved over the events of a document.
use vstd::prelude::*;

use crate::file::{blank_view, field_for, name_of, size_tag, type_of, with_field, Field, FileView, href_tag};
use crate::listing::{advance, parse_listing, response_tag, size_error, start_view, step, ListingView, Progress, XmlEvent};
use crate::listing::lemma_advance_stops;
use crate::text::decimal_u64;
use crate::xml::{expected_event, read_from};

verus! {

/// Where the parser stands after `b`, when it stood at `p` before.
pub open spec fn resume(p: Progress, b: Seq<XmlEvent>) -> Progress {
    match p {
        Progress::Going(t) => advance(t, b),
        Progress::Done(r) => Progress::Done(r),
    }
}

/// Reading `a` then `b` is reading `a`, then reading `b` from where `a` left off.
pub proof fn lemma_advance_concat(s: ListingView, a: Seq<XmlEvent>, b: Seq<XmlEvent>)
    ensures
        advance(s, a + b) == resume(advance(s, a), b),
    decreases b.len(),
{
    if b.len() == 0 {
        assert(a + b =~= a);
    } else {
        lemma_advance_concat(s, a, b.drop_last());
        assert((a + b).drop_last() =~= a + b.drop_last());
    }
}

/// Where the parser stands after `e`, when it stood at `p` before.
pub open spec fn then_step(p: Progress, e: XmlEvent) -> Progress {
    match p {
        Progress::Going(t) => step(t, e),
        Progress::Done(r) => Progress::Done(r),
    }
}

proof fn lemma_advance_push(s: ListingView, evs: Seq<XmlEvent>, e: XmlEvent)
    ensures
        advance(s, evs.push(e)) == then_step(advance(s, evs), e),
{
    assert(evs.push(e).drop_last() =~= evs);
}

/// The events of one entry whose only property is its reference field.
pub open spec fn entry_events(response: String, href: String, path: String) -> Seq<XmlEvent> {
    seq![
        XmlEvent::Open(response),
        XmlEvent::Open(href),
        XmlEvent::Text(path),
        XmlEvent::Close(response),
    ]
}

/// The events of a document of such entries, one for each path, in order.
pub open spec fn entries_events(response: String, href: String, paths: Seq<String>) -> Seq<XmlEvent>
    decreases paths.len(),
{
    if paths.len() == 0 {
        Seq::empty()
    } else {
        entries_events(response, href, paths.drop_last()) + entry_events(response, href, paths.last())
    }
}

/// The record of an entry whose only property is the path `path`.
pub open spec fn entry_of(path: Seq<char>) -> FileView {
    FileView { path: path, name: name_of(path), file_type: type_of(name_of(path)), ..blank_view() }
}

proof fn lemma_one_entry(t: ListingView, response: String, href: String, path: String)
    requires
        response@ == response_tag(),
        href@ == href_tag(),
        t.current is None,
    ensures
        advance(t, entry_events(response, href, path)) == Progress::Going(
            ListingView { files: t.files.push(entry_of(path@)), current: None, pending: None },
        ),
{
    let e0 = XmlEvent::Open(response);
    let e1 = XmlEvent::Open(href);
    let e2 = XmlEvent::Text(path);
    let e3 = XmlEvent::Close(response);
    let s0 = Seq::<XmlEvent>::empty();
    lemma_advance_push(t, s0, e0);
    lemma_advance_push(t, s0.push(e0), e1);
    lemma_advance_push(t, s0.push(e0).push(e1), e2);
    lemma_advance_push(t, s0.push(e0).push(e1).push(e2), e3);
    assert(advance(t, s0) == Progress::Going(t));
    assert(s0.push(e0).push(e1).push(e2).push(e3) =~= entry_events(response, href, path));
    assert(field_for(href@) == Some(Field::Path));
}

/// A document of N entries, each holding a reference field, gives N records,
/// in the order of the entries, each with the path of its entry.
pub proof fn lemma_entries_in_order(response: String, href: String, paths: Seq<String>)
    requires
        response@ == response_tag(),
        href@ == href_tag(),
    ensures
        parse_listing(entries_events(response, href, paths)) == Ok::<Seq<FileView>, Seq<char>>(
            paths.map_values(|p: String| entry_of(p@)),
        ),
        advance(start_view(), entries_events(response, href, paths)) == Progress::Going(
            ListingView {
                files: paths.map_values(|p: String| entry_of(p@)),
                current: None,
                pending: None,
            },
        ),
    decreases paths.len(),
{
    let files = paths.map_values(|p: String| entry_of(p@));
    if paths.len() == 0 {
        assert(files =~= Seq::<FileView>::empty());
    } else {
        let init = paths.drop_last();
        lemma_entries_in_order(response, href, init);
        let before = init.map_values(|p: String| entry_of(p@));
        let t = ListingView { files: before, current: None, pending: None };
        lemma_advance_concat(
            start_view(),
            entries_events(response, href, init),
            entry_events(response, href, paths.last()),
        );
        lemma_one_entry(t, response, href, paths.last());
        assert(before.push(entry_of(paths.last()@)) =~= files);
    }
}

/// Whether `e` opens an entry.
pub open spec fn opens_entry(e: XmlEvent) -> bool {
    e matches XmlEvent::Open(tag) && tag@ == response_tag()
}

proof fn lemma_no_entries_progress(evs: Seq<XmlEvent>)
    requires
        forall|i: int| 0 <= i < evs.len() ==> !opens_entry(#[trigger] evs[i]) && !(evs[i] is Malformed),
    ensures
        match advance(start_view(), evs) {
            Progress::Going(s) => s.files.len() == 0 && s.current is None,
            Progress::Done(r) => r == Ok::<Seq<FileView>, Seq<char>>(Seq::empty()),
        },
    decreases evs.len(),
{
    if evs.len() > 0 {
        let init = evs.drop_last();
        assert forall|i: int| 0 <= i < init.len() implies !opens_entry(#[trigger] init[i])
            && !(init[i] is Malformed) by {
            assert(init[i] == evs[i]);
        }
        lemma_no_entries_progress(init);
        assert(!opens_entry(evs[evs.len() - 1]));
        if let Progress::Going(s) = advance(start_view(), init) {
            assert(s.files =~= Seq::<FileView>::empty());
        }
    }
}

/// A document without entries, and without XML errors, gives an empty listing.
pub proof fn lemma_no_entries(evs: Seq<XmlEvent>)
    requires
        forall|i: int| 0 <= i < evs.len() ==> !opens_entry(#[trigger] evs[i]) && !(evs[i] is Malformed),
    ensures
        parse_listing(evs) == Ok::<Seq<FileView>, Seq<char>>(Seq::empty()),
{
    lemma_no_entries_progress(evs);
    if let Progress::Going(s) = advance(start_view(), evs) {
        assert(s.files =~= Seq::<FileView>::empty());
    }
}

/// An entry opened just before the end of the document, and never closed, is
/// left out: the result is that of the document before it.
pub proof fn lemma_unclosed_entry_dropped(before: Seq<XmlEvent>, response: String)
    requires
        response@ == response_tag(),
    ensures
        parse_listing(before.push(XmlEvent::Open(response)).push(XmlEvent::End)) == parse_listing(before),
        parse_listing(before.push(XmlEvent::Open(response))) == parse_listing(before),
{
    let opened = before.push(XmlEvent::Open(response));
    lemma_advance_push(start_view(), before, XmlEvent::Open(response));
    lemma_advance_push(start_view(), opened, XmlEvent::End);
}

/// Reading a property a second time overwrites the first reading.
pub proof fn lemma_with_field_overwrites(f: FileView, field: Field, first: Seq<char>, second: Seq<char>)
    requires
        with_field(f, field, first) is Some,
    ensures
        with_field(with_field(f, field, first)->Some_0, field, second) == with_field(f, field, second),
{
}

/// Within an entry, when a property's element comes twice, the later reading
/// is the one kept.
pub proof fn lemma_last_reading_wins(s: ListingView, tag: String, first: String, second: String)
    requires
        s.current is Some,
        field_for(tag@) is Some,
        with_field(s.current->Some_0, field_for(tag@)->Some_0, first@) is Some,
    ensures
        advance(
            s,
            seq![
                XmlEvent::Open(tag),
                XmlEvent::Text(first),
                XmlEvent::Open(tag),
                XmlEvent::Text(second),
            ],
        ) == advance(s, seq![XmlEvent::Open(tag), XmlEvent::Text(second)]),
{
    let e0 = XmlEvent::Open(tag);
    let e1 = XmlEvent::Text(first);
    let e3 = XmlEvent::Text(second);
    let s0 = Seq::<XmlEvent>::empty();
    lemma_advance_push(s, s0, e0);
    lemma_advance_push(s, s0.push(e0), e1);
    lemma_advance_push(s, s0.push(e0).push(e1), e0);
    lemma_advance_push(s, s0.push(e0).push(e1).push(e0), e3);
    lemma_advance_push(s, s0.push(e0), e3);
    assert(advance(s, s0) == Progress::Going(s));
    assert(s0.push(e0).push(e1).push(e0).push(e3) =~= seq![e0, e1, e0, e3]);
    assert(s0.push(e0).push(e3) =~= seq![e0, e3]);
    let f = s.current->Some_0;
    let field = field_for(tag@)->Some_0;
    lemma_with_field_overwrites(f, field, first@, second@);
}

/// Within an entry, a size whose text is not a number fails the whole parse,
/// whatever came before it and whatever follows.
pub proof fn lemma_bad_size_fails(
    before: Seq<XmlEvent>,
    tag: String,
    text: String,
    after: Seq<XmlEvent>,
)
    requires
        advance(start_view(), before) matches Progress::Going(s) && s.current is Some,
        tag@ == size_tag(),
        decimal_u64(text@) is None,
    ensures
        parse_listing(before + seq![XmlEvent::Open(tag), XmlEvent::Text(text)] + after) == Err::<
            Seq<FileView>,
            Seq<char>,
        >(size_error()),
{
    let bad = seq![XmlEvent::Open(tag), XmlEvent::Text(text)];
    let s0 = Seq::<XmlEvent>::empty();
    lemma_advance_concat(start_view(), before, bad);
    lemma_advance_concat(start_view(), before + bad, after);
    let s = advance(start_view(), before)->Going_0;
    lemma_advance_push(s, s0, XmlEvent::Open(tag));
    lemma_advance_push(s, s0.push(XmlEvent::Open(tag)), XmlEvent::Text(text));
    assert(advance(s, s0) == Progress::Going(s));
    assert(s0.push(XmlEvent::Open(tag)).push(XmlEvent::Text(text)) =~= bad);
    reveal_strlit("D:href");
    reveal_strlit("lp1:getcontentlength");
    assert(href_tag().len() != size_tag().len());
    assert(field_for(tag@) == Some(Field::Size));
}

/// Two readings of one document agree on the events they have in common.
pub proof fn lemma_read_from_prefix(src: Seq<char>, a: Seq<XmlEvent>, b: Seq<XmlEvent>, k: int)
    requires
        read_from(src, a),
        read_from(src, b),
        0 <= k <= a.len(),
        k <= b.len(),
    ensures
        a.take(k) == b.take(k),
    decreases k,
{
    if k > 0 {
        lemma_read_from_prefix(src, a, b, k - 1);
        assert(a[k - 1] == expected_event(src, a.take(k - 1)));
        assert(b[k - 1] == expected_event(src, b.take(k - 1)));
        assert(a.take(k) =~= a.take(k - 1).push(a[k - 1]));
        assert(b.take(k) =~= b.take(k - 1).push(b[k - 1]));
    } else {
        assert(a.take(0) =~= b.take(0));
    }
}

/// A document has one listing: any two readings of it that end the parse
/// give the same result.
pub proof fn lemma_listing_determined(src: Seq<char>, a: Seq<XmlEvent>, b: Seq<XmlEvent>)
    requires
        read_from(src, a),
        read_from(src, b),
        advance(start_view(), a) is Done,
        advance(start_view(), b) is Done,
    ensures
        parse_listing(a) == parse_listing(b),
{
    if a.len() <= b.len() {
        lemma_read_from_prefix(src, a, b, a.len() as int);
        assert(a.take(a.len() as int) =~= a);
        assert(b =~= a + b.skip(a.len() as int));
        lemma_advance_stops(start_view(), a, b.skip(a.len() as int));
    } else {
        lemma_read_from_prefix(src, b, a, b.len() as int);
        assert(b.take(b.len() as int) =~= b);
        assert(a =~= b + a.skip(b.len() as int));
        lemma_advance_stops(start_view(), b, a.skip(b.len() as int));
    }
}

} // verus!
