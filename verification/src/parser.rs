//! The parser state machine: assembles one record per feed entry from the
//! tokenizer's event stream.

use vstd::prelude::*;

verus! {

use crate::events::Attr;
use crate::events::SpecAttr;
use crate::events::SpecEvent;
use crate::events::Tokenizer;
use crate::events::XmlEvent;
use crate::events::bytes_to_string;
use crate::events::events_of;
use crate::normalize::convert_pdf_url;
use crate::normalize::spec_normalize;
use crate::records::ArxivError;
use crate::records::Paper;
use crate::records::SpecPaper;
use crate::records::clone_papers;
use crate::records::clone_strings;
use crate::records::empty_spec_paper;
use vstd::utf8::decode_utf8;
use vstd::utf8::valid_utf8;

/// The recognized sub-elements of an entry whose content is captured.
#[derive(Clone, Copy, PartialEq, Eq, Structural, Debug)]
pub enum Field {
    Title,
    Author,
    Abstract,
    Link,
    Category,
}

/// Tag names the state machine dispatches on, as bytes.
pub open spec fn tag_entry() -> Seq<u8> {
    seq!['e' as u8, 'n' as u8, 't' as u8, 'r' as u8, 'y' as u8]
}

pub open spec fn tag_title() -> Seq<u8> {
    seq!['t' as u8, 'i' as u8, 't' as u8, 'l' as u8, 'e' as u8]
}

pub open spec fn tag_author() -> Seq<u8> {
    seq!['a' as u8, 'u' as u8, 't' as u8, 'h' as u8, 'o' as u8, 'r' as u8]
}

pub open spec fn tag_summary() -> Seq<u8> {
    seq!['s' as u8, 'u' as u8, 'm' as u8, 'm' as u8, 'a' as u8, 'r' as u8, 'y' as u8]
}

pub open spec fn tag_link() -> Seq<u8> {
    seq!['l' as u8, 'i' as u8, 'n' as u8, 'k' as u8]
}

pub open spec fn tag_category() -> Seq<u8> {
    seq!['c' as u8, 'a' as u8, 't' as u8, 'e' as u8, 'g' as u8, 'o' as u8, 'r' as u8, 'y' as u8]
}

pub open spec fn attr_href() -> Seq<u8> {
    seq!['h' as u8, 'r' as u8, 'e' as u8, 'f' as u8]
}

pub open spec fn attr_term() -> Seq<u8> {
    seq!['t' as u8, 'e' as u8, 'r' as u8, 'm' as u8]
}

/// Mathematical model of the parser's transient state.
pub struct SpecParser {
    pub papers: Seq<SpecPaper>,
    pub current_paper: Option<SpecPaper>,
    pub current_authors: Seq<Seq<char>>,
    pub current_categories: Seq<Seq<char>>,
    pub in_entry: bool,
    pub current_field: Option<Field>,
}

/// The streaming parser: one instance per parse call.
#[derive(Debug)]
pub struct ArxivParser {
    pub papers: Vec<Paper>,
    pub current_paper: Option<Paper>,
    pub current_authors: Vec<String>,
    pub current_categories: Vec<String>,
    pub in_entry: bool,
    pub current_field: Option<Field>,
}

impl View for ArxivParser {
    type V = SpecParser;

    open spec fn view(&self) -> SpecParser {
        SpecParser {
            papers: self.papers.deep_view(),
            current_paper: match self.current_paper {
                Some(p) => Some(p@),
                None => None,
            },
            current_authors: self.current_authors.deep_view(),
            current_categories: self.current_categories.deep_view(),
            in_entry: self.in_entry,
            current_field: self.current_field,
        }
    }
}

/// The state a fresh parser starts in: nothing accumulated.
pub open spec fn init_parser() -> SpecParser {
    SpecParser {
        papers: Seq::empty(),
        current_paper: None,
        current_authors: Seq::empty(),
        current_categories: Seq::empty(),
        in_entry: false,
        current_field: None,
    }
}

impl Default for ArxivParser {
    fn default() -> (r: Self)
        ensures
            r@ == init_parser(),
    {
        let r = ArxivParser {
            papers: Vec::new(),
            current_paper: None,
            current_authors: Vec::new(),
            current_categories: Vec::new(),
            in_entry: false,
            current_field: None,
        };
        proof {
            assert(r@.papers =~= Seq::<SpecPaper>::empty());
            assert(r@.current_authors =~= Seq::<Seq<char>>::empty());
            assert(r@.current_categories =~= Seq::<Seq<char>>::empty());
            assert(r@ =~= init_parser());
        }
        r
    }
}

/// What a start tag does: an entry start opens a fresh record and clears
/// the accumulation buffers; a recognized field tag inside an entry sets
/// the active field; everything else is a no-op.
pub open spec fn spec_start(st: SpecParser, name: Seq<u8>) -> SpecParser {
    if name == tag_entry() {
        SpecParser {
            current_paper: Some(empty_spec_paper()),
            current_authors: Seq::empty(),
            current_categories: Seq::empty(),
            in_entry: true,
            ..st
        }
    } else if st.in_entry && name == tag_title() {
        SpecParser { current_field: Some(Field::Title), ..st }
    } else if st.in_entry && name == tag_author() {
        SpecParser { current_field: Some(Field::Author), ..st }
    } else if st.in_entry && name == tag_summary() {
        SpecParser { current_field: Some(Field::Abstract), ..st }
    } else if st.in_entry && name == tag_link() {
        SpecParser { current_field: Some(Field::Link), ..st }
    } else if st.in_entry && name == tag_category() {
        SpecParser { current_field: Some(Field::Category), ..st }
    } else {
        st
    }
}

/// What a text event does: outside an entry it is ignored; inside, the
/// bytes must decode, and the text goes to the active field — a title
/// replaces, an author appends as a new entry, a summary replaces the
/// abstract, last write winning on a repeat; text under any other field
/// is ignored.
pub open spec fn spec_text(st: SpecParser, t: Seq<u8>) -> Option<SpecParser> {
    match st.current_paper {
        None => Some(st),
        Some(p) => if !valid_utf8(t) {
            None
        } else {
            let s = decode_utf8(t);
            match st.current_field {
                Some(Field::Title) => Some(
                    SpecParser { current_paper: Some(SpecPaper { title: s, ..p }), ..st },
                ),
                Some(Field::Author) => Some(
                    SpecParser { current_authors: st.current_authors.push(s), ..st },
                ),
                Some(Field::Abstract) => Some(
                    SpecParser { current_paper: Some(SpecPaper { abstract_text: s, ..p }), ..st },
                ),
                _ => Some(st),
            }
        },
    }
}

/// Folds a link tag's attributes into the record: each `href` value must
/// decode and is normalized into the record's URL, the last one winning.
pub open spec fn spec_link_attrs(p: SpecPaper, attrs: Seq<SpecAttr>) -> Option<SpecPaper>
    decreases attrs.len(),
{
    if attrs.len() == 0 {
        Some(p)
    } else {
        let a = attrs[0];
        if a.key == attr_href() {
            if valid_utf8(a.value) {
                spec_link_attrs(
                    SpecPaper { url: spec_normalize(decode_utf8(a.value)), ..p },
                    attrs.skip(1),
                )
            } else {
                None
            }
        } else {
            spec_link_attrs(p, attrs.skip(1))
        }
    }
}

/// Folds a category tag's attributes into the accumulated categories:
/// each `term` value must decode and is appended in source order.
pub open spec fn spec_cat_attrs(cats: Seq<Seq<char>>, attrs: Seq<SpecAttr>) -> Option<
    Seq<Seq<char>>,
>
    decreases attrs.len(),
{
    if attrs.len() == 0 {
        Some(cats)
    } else {
        let a = attrs[0];
        if a.key == attr_term() {
            if valid_utf8(a.value) {
                spec_cat_attrs(cats.push(decode_utf8(a.value)), attrs.skip(1))
            } else {
                None
            }
        } else {
            spec_cat_attrs(cats, attrs.skip(1))
        }
    }
}

/// What a self-closing tag does: inside an entry, a `link` feeds its
/// `href` into the record's URL and a `category` appends its `term`;
/// everything else, or anything outside an entry, is a no-op.
pub open spec fn spec_empty(st: SpecParser, name: Seq<u8>, attrs: Seq<SpecAttr>) -> Option<
    SpecParser,
> {
    if !st.in_entry {
        Some(st)
    } else if name == tag_link() {
        match st.current_paper {
            Some(p) => match spec_link_attrs(p, attrs) {
                Some(p2) => Some(SpecParser { current_paper: Some(p2), ..st }),
                None => None,
            },
            None => Some(st),
        }
    } else if name == tag_category() {
        match spec_cat_attrs(st.current_categories, attrs) {
            Some(c) => Some(SpecParser { current_categories: c, ..st }),
            None => None,
        }
    } else {
        Some(st)
    }
}

/// What an end tag does: an entry end finalizes the pending record —
/// its authors and categories become the accumulated buffers — and
/// appends it to the output; a recognized field end clears the active
/// field; everything else is a no-op.
pub open spec fn spec_end(st: SpecParser, name: Seq<u8>) -> SpecParser {
    if name == tag_entry() {
        let papers2 = match st.current_paper {
            Some(p) => st.papers.push(
                SpecPaper {
                    authors: st.current_authors,
                    categories: st.current_categories,
                    ..p
                },
            ),
            None => st.papers,
        };
        SpecParser { papers: papers2, current_paper: None, in_entry: false, ..st }
    } else if name == tag_title() || name == tag_author() || name == tag_summary() || name
        == tag_link() || name == tag_category() {
        SpecParser { current_field: None, ..st }
    } else {
        st
    }
}

/// One step of the state machine; `None` is a decoding failure.
pub open spec fn spec_step(st: SpecParser, ev: SpecEvent) -> Option<SpecParser> {
    match ev {
        SpecEvent::Start(n) => Some(spec_start(st, n)),
        SpecEvent::Text(t) => spec_text(st, t),
        SpecEvent::Empty(n, attrs) => spec_empty(st, n, attrs),
        SpecEvent::End(n) => Some(spec_end(st, n)),
        SpecEvent::Eof => Some(st),
        SpecEvent::Other => Some(st),
    }
}

/// Runs the state machine over a whole event sequence, aborting on the
/// first decoding failure.
pub open spec fn spec_run(st: SpecParser, evs: Seq<SpecEvent>) -> Option<SpecParser>
    decreases evs.len(),
{
    if evs.len() == 0 {
        Some(st)
    } else {
        match spec_step(st, evs[0]) {
            None => None,
            Some(st2) => spec_run(st2, evs.skip(1)),
        }
    }
}

/// Extending a run by one event is one more step.
pub proof fn lemma_run_snoc(st: SpecParser, evs: Seq<SpecEvent>, e: SpecEvent)
    ensures
        spec_run(st, evs.push(e)) == (match spec_run(st, evs) {
            Some(s2) => spec_step(s2, e),
            None => None,
        }),
    decreases evs.len(),
{
    reveal_with_fuel(spec_run, 3);
    if evs.len() == 0 {
        assert(evs.push(e)[0] == e);
        assert(evs.push(e).skip(1) =~= Seq::<SpecEvent>::empty());
    } else {
        assert(evs.push(e)[0] == evs[0]);
        assert(evs.push(e).skip(1) =~= evs.skip(1).push(e));
        match spec_step(st, evs[0]) {
            None => {},
            Some(s2) => {
                lemma_run_snoc(s2, evs.skip(1), e);
            },
        }
    }
}

/// What a whole parse of a document's event stream comes to.
pub enum StreamResult {
    /// The stream ended cleanly; the machine stopped in this state.
    Parsed(SpecParser),
    /// The tokenizer reported malformed markup after this much of the
    /// stream; the machine had reached this state.
    Syntax(SpecParser),
    /// A text or attribute value did not decode.
    Decode,
}

/// Runs the state machine over a document's event stream: it stops at
/// the end-of-document event; a stream that ends without one is a
/// tokenizer failure; a step that cannot decode is a decoding failure.
pub open spec fn run_stream(st: SpecParser, evs: Seq<SpecEvent>) -> StreamResult
    decreases evs.len(),
{
    if evs.len() == 0 {
        StreamResult::Syntax(st)
    } else if evs[0] is Eof {
        StreamResult::Parsed(st)
    } else {
        match spec_step(st, evs[0]) {
            None => StreamResult::Decode,
            Some(st2) => run_stream(st2, evs.skip(1)),
        }
    }
}

/// A run that has consumed an error-free prefix of the stream, none of
/// it the end-of-document event, goes on from the state that prefix
/// led to.
pub proof fn lemma_run_stream_extend(st: SpecParser, pre: Seq<SpecEvent>, tail: Seq<SpecEvent>)
    requires
        spec_run(st, pre) is Some,
        forall|i: int| 0 <= i < pre.len() ==> !((#[trigger] pre[i]) is Eof),
    ensures
        run_stream(st, pre + tail) == run_stream(spec_run(st, pre)->Some_0, tail),
    decreases pre.len(),
{
    if pre.len() == 0 {
        assert(pre + tail =~= tail);
    } else {
        assert(!(pre[0] is Eof));
        assert((pre + tail)[0] == pre[0]);
        assert((pre + tail).skip(1) =~= pre.skip(1) + tail);
        let st2 = spec_step(st, pre[0])->Some_0;
        assert forall|i: int|
            0 <= i < pre.skip(1).len() implies !((#[trigger] pre.skip(1)[i]) is Eof) by {
            assert(pre.skip(1)[i] == pre[i + 1]);
        }
        lemma_run_stream_extend(st2, pre.skip(1), tail);
    }
}

/// Compares two byte vectors.
fn eq_bytes(a: &Vec<u8>, b: &Vec<u8>) -> (r: bool)
    ensures
        r == (a@ == b@),
{
    if a.len() != b.len() {
        return false;
    }
    let mut i: usize = 0;
    while i < a.len()
        invariant
            a@.len() == b@.len(),
            i <= a@.len(),
            forall|k: int| 0 <= k < i ==> a@[k] == b@[k],
        decreases a@.len() - i,
    {
        if a[i] != b[i] {
            return false;
        }
        i = i + 1;
    }
    proof {
        assert(a@ =~= b@);
    }
    true
}

fn tag_entry_vec() -> (r: Vec<u8>)
    ensures
        r@ == tag_entry(),
{
    let mut v: Vec<u8> = Vec::new();
    v.push('e' as u8);
    v.push('n' as u8);
    v.push('t' as u8);
    v.push('r' as u8);
    v.push('y' as u8);
    proof {
        assert(v@ =~= tag_entry());
    }
    v
}

fn tag_title_vec() -> (r: Vec<u8>)
    ensures
        r@ == tag_title(),
{
    let mut v: Vec<u8> = Vec::new();
    v.push('t' as u8);
    v.push('i' as u8);
    v.push('t' as u8);
    v.push('l' as u8);
    v.push('e' as u8);
    proof {
        assert(v@ =~= tag_title());
    }
    v
}

fn tag_author_vec() -> (r: Vec<u8>)
    ensures
        r@ == tag_author(),
{
    let mut v: Vec<u8> = Vec::new();
    v.push('a' as u8);
    v.push('u' as u8);
    v.push('t' as u8);
    v.push('h' as u8);
    v.push('o' as u8);
    v.push('r' as u8);
    proof {
        assert(v@ =~= tag_author());
    }
    v
}

fn tag_summary_vec() -> (r: Vec<u8>)
    ensures
        r@ == tag_summary(),
{
    let mut v: Vec<u8> = Vec::new();
    v.push('s' as u8);
    v.push('u' as u8);
    v.push('m' as u8);
    v.push('m' as u8);
    v.push('a' as u8);
    v.push('r' as u8);
    v.push('y' as u8);
    proof {
        assert(v@ =~= tag_summary());
    }
    v
}

fn tag_link_vec() -> (r: Vec<u8>)
    ensures
        r@ == tag_link(),
{
    let mut v: Vec<u8> = Vec::new();
    v.push('l' as u8);
    v.push('i' as u8);
    v.push('n' as u8);
    v.push('k' as u8);
    proof {
        assert(v@ =~= tag_link());
    }
    v
}

fn tag_category_vec() -> (r: Vec<u8>)
    ensures
        r@ == tag_category(),
{
    let mut v: Vec<u8> = Vec::new();
    v.push('c' as u8);
    v.push('a' as u8);
    v.push('t' as u8);
    v.push('e' as u8);
    v.push('g' as u8);
    v.push('o' as u8);
    v.push('r' as u8);
    v.push('y' as u8);
    proof {
        assert(v@ =~= tag_category());
    }
    v
}

fn attr_href_vec() -> (r: Vec<u8>)
    ensures
        r@ == attr_href(),
{
    let mut v: Vec<u8> = Vec::new();
    v.push('h' as u8);
    v.push('r' as u8);
    v.push('e' as u8);
    v.push('f' as u8);
    proof {
        assert(v@ =~= attr_href());
    }
    v
}

fn attr_term_vec() -> (r: Vec<u8>)
    ensures
        r@ == attr_term(),
{
    let mut v: Vec<u8> = Vec::new();
    v.push('t' as u8);
    v.push('e' as u8);
    v.push('r' as u8);
    v.push('m' as u8);
    proof {
        assert(v@ =~= attr_term());
    }
    v
}

impl ArxivParser {
    /// Handles a start tag.
    pub fn parse_start_event(&mut self, name: &Vec<u8>)
        ensures
            final(self)@ == spec_start(old(self)@, name@),
    {
        if eq_bytes(name, &tag_entry_vec()) {
            self.in_entry = true;
            self.current_paper = Some(Paper::default());
            self.current_authors = Vec::new();
            self.current_categories = Vec::new();
            proof {
                assert(self.current_authors.deep_view() =~= Seq::<Seq<char>>::empty());
                assert(self.current_categories.deep_view() =~= Seq::<Seq<char>>::empty());
            }
        } else if self.in_entry && eq_bytes(name, &tag_title_vec()) {
            self.current_field = Some(Field::Title);
        } else if self.in_entry && eq_bytes(name, &tag_author_vec()) {
            self.current_field = Some(Field::Author);
        } else if self.in_entry && eq_bytes(name, &tag_summary_vec()) {
            self.current_field = Some(Field::Abstract);
        } else if self.in_entry && eq_bytes(name, &tag_link_vec()) {
            self.current_field = Some(Field::Link);
        } else if self.in_entry && eq_bytes(name, &tag_category_vec()) {
            self.current_field = Some(Field::Category);
        }
    }

    /// Handles a text event.
    pub fn parse_text_event(&mut self, text: &Vec<u8>) -> (r: Result<(), ArxivError>)
        ensures
            match r {
                Ok(_) => spec_text(old(self)@, text@) == Some(final(self)@),
                Err(e) => spec_text(old(self)@, text@) is None && e is Utf8Error && *final(self)
                    == *old(self),
            },
    {
        if self.current_paper.is_none() {
            return Ok(());
        }
        match bytes_to_string(text) {
            None => Err(ArxivError::Utf8Error),
            Some(s) => {
                match self.current_field {
                    Some(Field::Title) => {
                        let mut p = self.current_paper.take().unwrap();
                        p.title = s;
                        self.current_paper = Some(p);
                    },
                    Some(Field::Author) => {
                        let ghost authors0 = self.current_authors.deep_view();
                        let ghost sv = s@;
                        self.current_authors.push(s);
                        proof {
                            assert forall|j: int|
                                0 <= j < self.current_authors.deep_view().len()
                                    implies self.current_authors.deep_view()[j] == authors0.push(
                                sv,
                            )[j] by {
                                if j < authors0.len() {
                                    assert(self.current_authors@[j]
                                        == old(self).current_authors@[j]);
                                }
                            }
                            assert(self.current_authors.deep_view() =~= authors0.push(sv));
                        }
                    },
                    Some(Field::Abstract) => {
                        let mut p = self.current_paper.take().unwrap();
                        p.abstract_text = s;
                        self.current_paper = Some(p);
                    },
                    _ => {},
                }
                Ok(())
            },
        }
    }

    /// Handles a self-closing tag.
    pub fn parse_empty_event(&mut self, name: &Vec<u8>, attrs: &Vec<Attr>) -> (r: Result<
        (),
        ArxivError,
    >)
        ensures
            match r {
                Ok(_) => spec_empty(old(self)@, name@, attrs.deep_view()) == Some(final(self)@),
                Err(e) => {
                    &&& spec_empty(old(self)@, name@, attrs.deep_view()) is None
                    &&& e is Utf8Error
                    &&& final(self)@.papers == old(self)@.papers
                    &&& final(self)@.in_entry == old(self)@.in_entry
                    &&& final(self)@.current_field == old(self)@.current_field
                    &&& final(self)@.current_authors == old(self)@.current_authors
                    &&& old(self)@.current_categories.is_prefix_of(
                        final(self)@.current_categories,
                    )
                    &&& (final(self)@.current_paper is Some <==> old(self)@.current_paper is Some)
                    &&& (old(self)@.current_paper matches Some(p) ==> (
                    final(self)@.current_paper matches Some(q) && q.title == p.title && q.authors
                        == p.authors && q.abstract_text == p.abstract_text && q.categories
                        == p.categories))
                },
            },
    {
        if !self.in_entry {
            return Ok(());
        }
        let ghost all = attrs.deep_view();
        if eq_bytes(name, &tag_link_vec()) {
            if self.current_paper.is_some() {
                let mut p = self.current_paper.take().unwrap();
                let ghost p0 = p@;
                let mut i: usize = 0;
                proof {
                    assert(all.skip(0) =~= all);
                }
                while i < attrs.len()
                    invariant
                        i <= attrs@.len(),
                        all == attrs.deep_view(),
                        name@ == tag_link(),
                        old(self)@.in_entry,
                        old(self)@.current_paper == Some(p0),
                        self.papers == old(self).papers,
                        self.current_authors == old(self).current_authors,
                        self.current_categories == old(self).current_categories,
                        self.in_entry == old(self).in_entry,
                        self.current_field == old(self).current_field,
                        p@.title == p0.title,
                        p@.authors == p0.authors,
                        p@.abstract_text == p0.abstract_text,
                        p@.categories == p0.categories,
                        spec_link_attrs(p0, all) == spec_link_attrs(p@, all.skip(i as int)),
                    decreases attrs@.len() - i,
                {
                    proof {
                        assert(all.skip(i as int)[0] == all[i as int]);
                        assert(all.skip(i as int).skip(1) =~= all.skip(i as int + 1));
                        assert(all[i as int] == attrs@[i as int]@);
                    }
                    if eq_bytes(&attrs[i].key, &attr_href_vec()) {
                        match bytes_to_string(&attrs[i].value) {
                            None => {
                                self.current_paper = Some(p);
                                return Err(ArxivError::Utf8Error);
                            },
                            Some(u) => {
                                p.url = convert_pdf_url(u.as_str());
                            },
                        }
                    }
                    i = i + 1;
                }
                proof {
                    assert(all.skip(attrs@.len() as int).len() == 0);
                    assert(spec_link_attrs(p@, all.skip(attrs@.len() as int)) == Some(p@));
                }
                self.current_paper = Some(p);
            }
            return Ok(());
        }
        if eq_bytes(name, &tag_category_vec()) {
            let ghost c0 = self.current_categories.deep_view();
            let mut i: usize = 0;
            proof {
                assert(all.skip(0) =~= all);
            }
            while i < attrs.len()
                invariant
                    i <= attrs@.len(),
                    all == attrs.deep_view(),
                    name@ != tag_link(),
                    name@ == tag_category(),
                    old(self)@.in_entry,
                    self.in_entry == old(self).in_entry,
                    self.papers == old(self).papers,
                    self.current_paper == old(self).current_paper,
                    self.current_authors == old(self).current_authors,
                    self.current_field == old(self).current_field,
                    c0 == old(self).current_categories.deep_view(),
                    c0.is_prefix_of(self.current_categories.deep_view()),
                    spec_cat_attrs(c0, all) == spec_cat_attrs(
                        self.current_categories.deep_view(),
                        all.skip(i as int),
                    ),
                decreases attrs@.len() - i,
            {
                proof {
                    assert(all.skip(i as int)[0] == all[i as int]);
                    assert(all.skip(i as int).skip(1) =~= all.skip(i as int + 1));
                    assert(all[i as int] == attrs@[i as int]@);
                }
                if eq_bytes(&attrs[i].key, &attr_term_vec()) {
                    match bytes_to_string(&attrs[i].value) {
                        None => {
                            return Err(ArxivError::Utf8Error);
                        },
                        Some(t) => {
                            let ghost cats = self.current_categories.deep_view();
                            let ghost tv = t@;
                            self.current_categories.push(t);
                            proof {
                                assert forall|j: int|
                                    0 <= j < self.current_categories.deep_view().len()
                                        implies self.current_categories.deep_view()[j]
                                    == cats.push(tv)[j] by {}
                                assert(self.current_categories.deep_view() =~= cats.push(tv));
                            }
                        },
                    }
                }
                i = i + 1;
            }
            proof {
                assert(all.skip(attrs@.len() as int).len() == 0);
                assert(spec_cat_attrs(self.current_categories.deep_view(), all.skip(
                    attrs@.len() as int,
                )) == Some(self.current_categories.deep_view()));
            }
            return Ok(());
        }
        Ok(())
    }

    /// Handles an end tag.
    pub fn parse_end_event(&mut self, name: &Vec<u8>) -> (r: Result<(), ArxivError>)
        ensures
            r is Ok,
            final(self)@ == spec_end(old(self)@, name@),
    {
        if eq_bytes(name, &tag_entry_vec()) {
            let ghost papers0 = self.papers.deep_view();
            match self.current_paper.take() {
                Some(p) => {
                    let mut p = p;
                    p.authors = clone_strings(&self.current_authors);
                    p.categories = clone_strings(&self.current_categories);
                    self.papers.push(p);
                    proof {
                        assert forall|j: int|
                            0 <= j < self.papers.deep_view().len() implies self.papers.deep_view()[j]
                            == papers0.push(
                            SpecPaper {
                                authors: old(self)@.current_authors,
                                categories: old(self)@.current_categories,
                                ..old(self)@.current_paper->Some_0
                            },
                        )[j] by {
                            if j < papers0.len() {
                                assert(self.papers@[j] == old(self).papers@[j]);
                            }
                        }
                        assert(self.papers.deep_view() =~= papers0.push(
                            SpecPaper {
                                authors: old(self)@.current_authors,
                                categories: old(self)@.current_categories,
                                ..old(self)@.current_paper->Some_0
                            },
                        ));
                    }
                },
                None => {},
            }
            self.in_entry = false;
        } else if eq_bytes(name, &tag_title_vec()) || eq_bytes(name, &tag_author_vec())
            || eq_bytes(name, &tag_summary_vec()) || eq_bytes(name, &tag_link_vec()) || eq_bytes(
            name,
            &tag_category_vec(),
        ) {
            self.current_field = None;
        }
        Ok(())
    }

    /// Parses a whole feed document: drives the tokenizer to the end of
    /// the document, feeding every structural event through the state
    /// machine, and returns the records in document order. The document's
    /// event stream decides the outcome exactly: on a stream that ends
    /// cleanly the records come back when there is at least one and
    /// `NoResults` when there is none; a stream the tokenizer cannot
    /// finish is `XmlParsing` with its diagnostic; a text or attribute
    /// value that does not decode is `Utf8Error`. No partial results
    /// come back on an error. A parse call owns a fresh parser.
    pub fn parse_response(&mut self, input: &str) -> (r: Result<Vec<Paper>, ArxivError>)
        requires
            old(self)@ == init_parser(),
        ensures
            match r {
                Ok(papers) => {
                    &&& run_stream(old(self)@, events_of(input@)) == StreamResult::Parsed(
                        final(self)@,
                    )
                    &&& final(self)@.papers.len() > 0
                    &&& papers.deep_view() == final(self)@.papers
                },
                Err(e) => match e {
                    ArxivError::NoResults => run_stream(old(self)@, events_of(input@))
                        == StreamResult::Parsed(final(self)@) && final(self)@.papers.len() == 0,
                    ArxivError::XmlParsing(_) => run_stream(old(self)@, events_of(input@))
                        == StreamResult::Syntax(final(self)@),
                    ArxivError::Utf8Error => run_stream(old(self)@, events_of(input@))
                        == StreamResult::Decode,
                },
            },
    {
        let mut tok = Tokenizer::new(input);
        proof {
            assert(events_of(input@).take(0) =~= Seq::<SpecEvent>::empty());
        }
        loop
            invariant_except_break
                forall|i: int|
                    0 <= i < tok.consumed@.len() ==> !((#[trigger] tok.consumed@[i]) is Eof),
                spec_run(old(self)@, tok.consumed@) == Some(self@),
            invariant
                tok.doc@ == input@,
                !tok.failed@,
                tok.consumed@ == events_of(input@).take(tok.consumed@.len() as int),
                tok.consumed@.len() <= events_of(input@).len(),
            ensures
                run_stream(old(self)@, events_of(input@)) == StreamResult::Parsed(self@),
            decreases events_of(input@).len() - tok.consumed@.len(),
        {
            let ghost pre = tok.consumed@;
            let ghost st_pre = self@;
            match tok.next_event() {
                Err(msg) => {
                    proof {
                        lemma_run_stream_extend(old(self)@, pre, Seq::<SpecEvent>::empty());
                        assert(pre + Seq::<SpecEvent>::empty() =~= events_of(input@));
                    }
                    return Err(ArxivError::XmlParsing(msg));
                },
                Ok(ev) => {
                    let ghost evv = ev@;
                    let ghost rest = events_of(input@).skip(pre.len() as int);
                    proof {
                        assert(events_of(input@).take(pre.len() as int + 1) =~= pre.push(evv));
                        assert(rest[0] == events_of(input@)[pre.len() as int]);
                    }
                    if matches!(ev, XmlEvent::Eof) {
                        proof {
                            lemma_run_stream_extend(old(self)@, pre, rest);
                            assert(pre + rest =~= events_of(input@));
                            assert(evv is Eof);
                        }
                        break ;
                    }
                    proof {
                        assert(!(evv is Eof));
                    }
                    let res: Result<(), ArxivError> = match &ev {
                        XmlEvent::Start(n) => {
                            self.parse_start_event(n);
                            Ok(())
                        },
                        XmlEvent::Text(t) => self.parse_text_event(t),
                        XmlEvent::Empty(n, a) => self.parse_empty_event(n, a),
                        XmlEvent::End(n) => self.parse_end_event(n),
                        XmlEvent::Eof => Ok(()),
                        XmlEvent::Other => Ok(()),
                    };
                    match res {
                        Ok(_) => {
                            proof {
                                lemma_run_snoc(old(self)@, pre, evv);
                            }
                        },
                        Err(e) => {
                            proof {
                                lemma_run_stream_extend(old(self)@, pre, rest);
                                assert(pre + rest =~= events_of(input@));
                                assert(spec_step(st_pre, evv) is None);
                            }
                            return Err(e);
                        },
                    }
                },
            }
        }
        if self.papers.len() == 0 {
            return Err(ArxivError::NoResults);
        }
        let out = clone_papers(&self.papers);
        Ok(out)
    }
}

} // verus!
