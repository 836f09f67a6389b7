//! The record type produced by the parser, and the error taxonomy.

use vstd::prelude::*;

verus! {

/// Mathematical model of a [`Paper`]: every string is a sequence of
/// characters, every list a sequence.
pub struct SpecPaper {
    pub title: Seq<char>,
    pub authors: Seq<Seq<char>>,
    pub abstract_text: Seq<char>,
    pub url: Seq<char>,
    pub categories: Seq<Seq<char>>,
}

/// One parsed feed entry: a single paper's metadata.
#[derive(Debug)]
pub struct Paper {
    pub title: String,
    pub authors: Vec<String>,
    pub abstract_text: String,
    pub url: String,
    pub categories: Vec<String>,
}

impl View for Paper {
    type V = SpecPaper;

    open spec fn view(&self) -> SpecPaper {
        SpecPaper {
            title: self.title@,
            authors: self.authors.deep_view(),
            abstract_text: self.abstract_text@,
            url: self.url@,
            categories: self.categories.deep_view(),
        }
    }
}

impl DeepView for Paper {
    type V = SpecPaper;

    open spec fn deep_view(&self) -> SpecPaper {
        self@
    }
}

/// The record every entry starts from: all fields empty.
pub open spec fn empty_spec_paper() -> SpecPaper {
    SpecPaper {
        title: Seq::empty(),
        authors: Seq::empty(),
        abstract_text: Seq::empty(),
        url: Seq::empty(),
        categories: Seq::empty(),
    }
}

impl Default for Paper {
    fn default() -> (r: Self)
        ensures
            r@ == empty_spec_paper(),
    {
        let r = Paper {
            title: String::new(),
            authors: Vec::new(),
            abstract_text: String::new(),
            url: String::new(),
            categories: Vec::new(),
        };
        proof {
            assert(r@.authors =~= Seq::<Seq<char>>::empty());
            assert(r@.categories =~= Seq::<Seq<char>>::empty());
            assert(r@ =~= empty_spec_paper());
        }
        r
    }
}

/// Clones a vector of strings, keeping its contents.
pub fn clone_strings(v: &Vec<String>) -> (r: Vec<String>)
    ensures
        r.deep_view() == v.deep_view(),
{
    let mut r: Vec<String> = Vec::new();
    let mut i: usize = 0;
    while i < v.len()
        invariant
            i <= v@.len(),
            r@.len() == i,
            forall|j: int| 0 <= j < i ==> r@[j]@ == v@[j]@,
        decreases v@.len() - i,
    {
        r.push(v[i].clone());
        i = i + 1;
    }
    proof {
        assert forall|j: int| 0 <= j < v@.len() implies r.deep_view()[j] == v.deep_view()[j] by {
            assert(r@[j]@ == v@[j]@);
        }
        assert(r.deep_view() =~= v.deep_view());
    }
    r
}

impl Clone for Paper {
    /// A clone denotes the same record.
    fn clone(&self) -> (r: Self)
        ensures
            r@ == self@,
    {
        Paper {
            title: self.title.clone(),
            authors: clone_strings(&self.authors),
            abstract_text: self.abstract_text.clone(),
            url: self.url.clone(),
            categories: clone_strings(&self.categories),
        }
    }
}

/// Clones a vector of records, keeping its contents.
pub(crate) fn clone_papers(v: &Vec<Paper>) -> (r: Vec<Paper>)
    ensures
        r.deep_view() == v.deep_view(),
{
    let mut r: Vec<Paper> = Vec::new();
    let mut i: usize = 0;
    while i < v.len()
        invariant
            i <= v@.len(),
            r@.len() == i,
            forall|j: int| 0 <= j < i ==> r@[j]@ == v@[j]@,
        decreases v@.len() - i,
    {
        r.push(v[i].clone());
        i = i + 1;
    }
    proof {
        assert forall|j: int| 0 <= j < v@.len() implies r.deep_view()[j] == v.deep_view()[j] by {
            assert(r@[j]@ == v@[j]@);
        }
        assert(r.deep_view() =~= v.deep_view());
    }
    r
}

/// How a parse can fail.
#[derive(Debug)]
pub enum ArxivError {
    /// The tokenizer reported malformed markup; its diagnostic is kept.
    XmlParsing(String),
    /// The document parsed cleanly but held no entry.
    NoResults,
    /// A text or attribute value was not valid UTF-8.
    Utf8Error,
}

} // verus!
