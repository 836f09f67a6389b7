//! Laws the library's functions obey, stated and proved over their
//! mathematical models.

use vstd::prelude::*;

verus! {

use crate::events::SpecAttr;
use crate::events::SpecEvent;
use crate::normalize::abs_marker;
use crate::normalize::contains_seq;
use crate::normalize::http_prefix;
use crate::normalize::https_prefix;
use crate::normalize::match_at;
use crate::normalize::pdf_marker;
use crate::normalize::pdf_suffix;
use crate::normalize::replace_seq;
use crate::normalize::spec_normalize;
use crate::parser::Field;
use crate::parser::SpecParser;
use crate::parser::attr_href;
use crate::parser::attr_term;
use crate::parser::init_parser;
use crate::parser::lemma_run_stream_extend;
use crate::parser::spec_cat_attrs;
use crate::parser::spec_link_attrs;
use crate::parser::spec_run;
use crate::parser::spec_start;
use crate::parser::spec_step;
use crate::parser::tag_author;
use crate::parser::tag_category;
use crate::parser::tag_entry;
use crate::parser::tag_link;
use crate::parser::tag_summary;
use crate::parser::tag_title;
use vstd::utf8::decode_utf8;
use vstd::utf8::valid_utf8;

/// `p` is an initial segment of `s`.
pub open spec fn is_prefix(p: Seq<char>, s: Seq<char>) -> bool {
    p.len() <= s.len() && s.subrange(0, p.len() as int) == p
}

/// An occurrence inside a suffix is an occurrence of the whole.
proof fn lemma_contains_skip(s: Seq<char>, pat: Seq<char>, k: int)
    requires
        !contains_seq(s, pat),
        0 <= k <= s.len(),
    ensures
        !contains_seq(s.skip(k), pat),
{
    assert forall|i: int| !match_at(s.skip(k), pat, i) by {
        if 0 <= i && i + pat.len() <= s.len() - k {
            assert(s.skip(k).subrange(i, i + pat.len() as int) =~= s.subrange(
                k + i,
                k + i + pat.len() as int,
            ));
            assert(!match_at(s, pat, k + i));
        }
    }
}

/// Replacing a pattern that does not occur changes nothing.
proof fn lemma_replace_id(s: Seq<char>, pat: Seq<char>, rep: Seq<char>)
    requires
        pat.len() >= 1,
        !contains_seq(s, pat),
    ensures
        replace_seq(s, pat, rep) == s,
    decreases s.len(),
{
    if s.len() < pat.len() {
    } else {
        assert(!match_at(s, pat, 0));
        lemma_contains_skip(s, pat, 1);
        lemma_replace_id(s.skip(1), pat, rep);
        assert(seq![s[0]] + s.skip(1) =~= s);
    }
}

/// The central lemma of the normalizer's laws: under the stated
/// side conditions on the pattern `pat`, the replacement `rep` and a
/// target `tgt` that the source does not contain (or that is the pattern
/// itself), the result of the replacement does not contain the target;
/// moreover a proper suffix of the target can begin the result only where
/// it begins the source.
proof fn lemma_replace_free(s: Seq<char>, pat: Seq<char>, rep: Seq<char>, tgt: Seq<char>)
    requires
        pat.len() >= 1,
        tgt.len() >= 1,
        !contains_seq(rep, tgt),
        forall|j: int|
            0 <= j < rep.len() && rep.len() - j < tgt.len() ==> rep.skip(j) != tgt.take(
                rep.len() - j,
            ),
        forall|k: int|
            1 <= k < tgt.len() ==> !is_prefix(tgt.skip(k), rep) && !is_prefix(rep, tgt.skip(k)),
        !contains_seq(s, tgt) || tgt == pat,
    ensures
        !contains_seq(replace_seq(s, pat, rep), tgt),
        forall|k: int|
            1 <= k < tgt.len() && is_prefix(tgt.skip(k), replace_seq(s, pat, rep)) ==> is_prefix(
                tgt.skip(k),
                s,
            ),
    decreases s.len(),
{
    let r = replace_seq(s, pat, rep);
    if s.len() < pat.len() {
        assert(r == s);
        if tgt == pat {
            assert forall|i: int| !match_at(s, tgt, i) by {}
        }
    } else if s.subrange(0, pat.len() as int) == pat {
        let tail = s.skip(pat.len() as int);
        if !(tgt == pat) {
            lemma_contains_skip(s, tgt, pat.len() as int);
        }
        lemma_replace_free(tail, pat, rep, tgt);
        let rr = replace_seq(tail, pat, rep);
        assert(r == rep + rr);
        assert forall|p: int| !match_at(r, tgt, p) by {
            if 0 <= p && p + tgt.len() <= r.len() {
                if p + tgt.len() <= rep.len() {
                    assert(r.subrange(p, p + tgt.len() as int) =~= rep.subrange(
                        p,
                        p + tgt.len() as int,
                    ));
                    assert(!match_at(rep, tgt, p));
                } else if p >= rep.len() {
                    assert(r.subrange(p, p + tgt.len() as int) =~= rr.subrange(
                        p - rep.len(),
                        p - rep.len() + tgt.len() as int,
                    ));
                    assert(!match_at(rr, tgt, p - rep.len()));
                } else {
                    // the occurrence would span the boundary of `rep`
                    if r.subrange(p, p + tgt.len() as int) == tgt {
                        assert(rep.skip(p) =~= tgt.take(rep.len() - p)) by {
                            assert forall|q: int| 0 <= q < rep.len() - p implies rep.skip(p)[q]
                                == tgt.take(rep.len() - p)[q] by {
                                assert(r[p + q] == rep[p + q]);
                                assert(r.subrange(p, p + tgt.len() as int)[q] == r[p + q]);
                            }
                        }
                    }
                }
            }
        }
        assert forall|k: int|
            1 <= k < tgt.len() && is_prefix(tgt.skip(k), r) implies is_prefix(tgt.skip(k), s) by {
            let l = tgt.len() - k;
            if l <= rep.len() {
                assert(rep.subrange(0, l) =~= r.subrange(0, l));
                assert(is_prefix(tgt.skip(k), rep));
            } else {
                assert(rep =~= tgt.skip(k).subrange(0, rep.len() as int)) by {
                    assert forall|q: int| 0 <= q < rep.len() implies rep[q] == tgt.skip(k)[q] by {
                        assert(r.subrange(0, l)[q] == r[q]);
                    }
                }
                assert(is_prefix(rep, tgt.skip(k)));
            }
        }
    } else {
        let tail = s.skip(1);
        if !(tgt == pat) {
            lemma_contains_skip(s, tgt, 1);
        }
        lemma_replace_free(tail, pat, rep, tgt);
        let rr = replace_seq(tail, pat, rep);
        assert(r == seq![s[0]] + rr);
        assert forall|p: int| !match_at(r, tgt, p) by {
            if 0 <= p && p + tgt.len() <= r.len() {
                if p == 0 {
                    if r.subrange(0, tgt.len() as int) == tgt {
                        assert(tgt[0] == s[0]);
                        if tgt.len() == 1 {
                            assert(s.subrange(0, 1) =~= tgt);
                            assert(match_at(s, tgt, 0));
                            if tgt == pat {
                                assert(pat.len() == 1);
                                assert(s.subrange(0, pat.len() as int) == pat);
                            }
                        } else {
                            assert(tgt.skip(1) =~= rr.subrange(0, tgt.len() - 1)) by {
                                assert forall|q: int| 0 <= q < tgt.len() - 1 implies tgt.skip(1)[q]
                                    == rr.subrange(0, tgt.len() - 1)[q] by {
                                    assert(r.subrange(0, tgt.len() as int)[q + 1] == r[q + 1]);
                                    assert(r[q + 1] == rr[q]);
                                }
                            }
                            assert(is_prefix(tgt.skip(1), rr));
                            assert(is_prefix(tgt.skip(1), tail));
                            assert(s.subrange(0, tgt.len() as int) =~= tgt) by {
                                assert forall|q: int| 0 <= q < tgt.len() implies s.subrange(
                                    0,
                                    tgt.len() as int,
                                )[q] == tgt[q] by {
                                    if q >= 1 {
                                        assert(tail.subrange(0, tgt.len() - 1)[q - 1] == tail[q
                                            - 1]);
                                        assert(tgt.skip(1)[q - 1] == tgt[q]);
                                    }
                                }
                            }
                            assert(match_at(s, tgt, 0));
                            if tgt == pat {
                                assert(s.subrange(0, pat.len() as int) == pat);
                            }
                        }
                    }
                } else {
                    assert(r.subrange(p, p + tgt.len() as int) =~= rr.subrange(
                        p - 1,
                        p - 1 + tgt.len() as int,
                    ));
                    assert(!match_at(rr, tgt, p - 1));
                }
            }
        }
        assert forall|k: int|
            1 <= k < tgt.len() && is_prefix(tgt.skip(k), r) implies is_prefix(tgt.skip(k), s) by {
            let l = tgt.len() - k;
            assert(tgt.skip(k)[0] == tgt[k]);
            assert(r.subrange(0, l)[0] == r[0]);
            assert(tgt[k] == s[0]);
            if l == 1 {
                assert(s.subrange(0, 1) =~= tgt.skip(k));
            } else {
                assert(k + 1 < tgt.len());
                assert(tgt.skip(k + 1) =~= rr.subrange(0, l - 1)) by {
                    assert forall|q: int| 0 <= q < l - 1 implies #[trigger] tgt.skip(k + 1)[q]
                        == rr.subrange(0, l - 1)[q] by {
                        assert(r.subrange(0, l)[q + 1] == r[q + 1]);
                        assert(r[q + 1] == rr[q]);
                        assert(tgt.skip(k)[q + 1] == tgt[k + 1 + q]);
                    }
                }
                assert(is_prefix(tgt.skip(k + 1), rr));
                assert(is_prefix(tgt.skip(k + 1), tail));
                assert(s.subrange(0, l) =~= tgt.skip(k)) by {
                    assert forall|q: int| 0 <= q < l implies s.subrange(0, l)[q] == tgt.skip(
                        k,
                    )[q] by {
                        if q >= 1 {
                            assert(tail.subrange(0, l - 1)[q - 1] == tail[q - 1]);
                            assert(tgt.skip(k + 1)[q - 1] == tgt[k + q]);
                        }
                    }
                }
            }
        }
    }
}

/// Appending a short tail creates no new occurrence of `tgt` when no
/// proper suffix of `tgt` begins the tail.
proof fn lemma_append_free(z: Seq<char>, tail: Seq<char>, tgt: Seq<char>)
    requires
        !contains_seq(z, tgt),
        tgt.len() > tail.len(),
        forall|m: int|
            0 < m < tgt.len() && tgt.len() - m <= tail.len() ==> tgt.skip(m) != tail.take(
                tgt.len() - m,
            ),
    ensures
        !contains_seq(z + tail, tgt),
{
    assert forall|p: int| !match_at(z + tail, tgt, p) by {
        if 0 <= p && p + tgt.len() <= z.len() + tail.len() {
            if p + tgt.len() <= z.len() {
                assert((z + tail).subrange(p, p + tgt.len() as int) =~= z.subrange(
                    p,
                    p + tgt.len() as int,
                ));
                assert(!match_at(z, tgt, p));
            } else if p >= z.len() {
                assert(tgt.len() <= tail.len());
            } else {
                let m = z.len() - p;
                if (z + tail).subrange(p, p + tgt.len() as int) == tgt {
                    assert(tgt.skip(m) =~= tail.take(tgt.len() - m)) by {
                        assert forall|q: int| 0 <= q < tgt.len() - m implies tgt.skip(m)[q]
                            == tail.take(tgt.len() - m)[q] by {
                            assert((z + tail).subrange(p, p + tgt.len() as int)[m + q] == (z
                                + tail)[p + m + q]);
                        }
                    }
                }
            }
        }
    }
}

/// Making a string secure leaves no insecure prefix behind.
proof fn lemma_secure_no_http(s: Seq<char>)
    ensures
        !contains_seq(replace_seq(s, http_prefix(), https_prefix()), http_prefix()),
{
    reveal_strlit("http://");
    reveal_strlit("https://");
    let http = http_prefix();
    let https = https_prefix();
    assert forall|p: int| !match_at(https, http, p) by {
        if 0 <= p && p + 7 <= 8 {
            if p == 0 {
                if https.subrange(0, 7) == http {
                    assert(https.subrange(0, 7)[4] == https[4]);
                    assert(false);
                }
            } else {
                if https.subrange(p, p + 7) == http {
                    assert(https.subrange(p, p + 7)[0] == https[p]);
                    assert(false);
                }
            }
        }
    }
    assert forall|j: int| 0 <= j < 8 && 8 - j < 7 implies https.skip(j) != http.take(8 - j) by {
        if https.skip(j) == http.take(8 - j) {
            assert(https.skip(j)[0] == https[j]);
            assert(http.take(8 - j)[0] == http[0]);
            assert(https[j] != 'h');
            assert(false);
        }
    }
    assert forall|k: int|
        1 <= k < 7 implies !is_prefix(http.skip(k), https) && !is_prefix(https, http.skip(k)) by {
        if is_prefix(http.skip(k), https) {
            assert(https.subrange(0, 7 - k)[0] == https[0]);
            assert(http.skip(k)[0] == http[k]);
            assert(http[k] != 'h');
            assert(false);
        }
        assert(http.skip(k).len() < 8);
    }
    lemma_replace_free(s, http, https, http);
}

/// Making a string secure creates no abstract-view path segment.
proof fn lemma_secure_keeps_no_abs(s: Seq<char>)
    requires
        !contains_seq(s, abs_marker()),
    ensures
        !contains_seq(replace_seq(s, http_prefix(), https_prefix()), abs_marker()),
{
    reveal_strlit("http://");
    reveal_strlit("https://");
    reveal_strlit("arxiv.org/abs/");
    let http = http_prefix();
    let https = https_prefix();
    let abs = abs_marker();
    assert forall|p: int| !match_at(https, abs, p) by {}
    assert forall|j: int| 0 <= j < 8 && 8 - j < 14 implies https.skip(j) != abs.take(8 - j) by {
        if https.skip(j) == abs.take(8 - j) {
            assert(https.skip(j)[0] == https[j]);
            assert(abs.take(8 - j)[0] == abs[0]);
            assert(https[j] != 'a');
            assert(false);
        }
    }
    assert forall|k: int|
        1 <= k < 14 implies !is_prefix(abs.skip(k), https) && !is_prefix(https, abs.skip(k)) by {
        if is_prefix(abs.skip(k), https) {
            assert(14 - k <= 8);
            assert(https.subrange(0, 14 - k)[0] == https[0]);
            assert(abs.skip(k)[0] == abs[k]);
            assert(abs[k] != 'h');
            assert(false);
        }
        if is_prefix(https, abs.skip(k)) {
            assert(8 <= 14 - k);
            assert(abs.skip(k).subrange(0, 8)[0] == abs[k]);
            assert(abs[k] != 'h');
            assert(false);
        }
    }
    lemma_replace_free(s, http, https, abs);
}

/// Rewriting the abstract path segment to the PDF one removes every
/// occurrence of the abstract segment.
proof fn lemma_abs_gone(s: Seq<char>)
    ensures
        !contains_seq(replace_seq(s, abs_marker(), pdf_marker()), abs_marker()),
{
    reveal_strlit("arxiv.org/abs/");
    reveal_strlit("arxiv.org/pdf/");
    let abs = abs_marker();
    let pdf = pdf_marker();
    assert forall|p: int| !match_at(pdf, abs, p) by {
        if 0 <= p && p + 14 <= 14 {
            if pdf.subrange(0, 14) == abs {
                assert(pdf.subrange(0, 14)[10] == pdf[10]);
                assert(false);
            }
        }
    }
    assert forall|j: int| 0 <= j < 14 && 14 - j < 14 implies pdf.skip(j) != abs.take(14 - j) by {
        if pdf.skip(j) == abs.take(14 - j) {
            assert(pdf.skip(j)[0] == pdf[j]);
            assert(abs.take(14 - j)[0] == abs[0]);
            assert(pdf[j] != 'a');
            assert(false);
        }
    }
    assert forall|k: int|
        1 <= k < 14 implies !is_prefix(abs.skip(k), pdf) && !is_prefix(pdf, abs.skip(k)) by {
        if is_prefix(abs.skip(k), pdf) {
            if k == 10 {
                assert(pdf.subrange(0, 14 - k)[1] == pdf[1]);
                assert(abs.skip(k)[1] == abs[k + 1]);
                assert(false);
            } else {
                assert(pdf.subrange(0, 14 - k)[0] == pdf[0]);
                assert(abs.skip(k)[0] == abs[k]);
                assert(abs[k] != 'a');
                assert(false);
            }
        }
        assert(pdf.len() > abs.skip(k).len());
    }
    lemma_replace_free(s, abs, pdf, abs);
}

/// Appending the `.pdf` suffix introduces neither an abstract path
/// segment nor an insecure prefix.
proof fn lemma_pdf_suffix_free(z: Seq<char>)
    requires
        !contains_seq(z, abs_marker()),
        !contains_seq(z, http_prefix()),
    ensures
        !contains_seq(z + pdf_suffix(), abs_marker()),
        !contains_seq(z + pdf_suffix(), http_prefix()),
{
    reveal_strlit("arxiv.org/abs/");
    reveal_strlit("http://");
    reveal_strlit(".pdf");
    let abs = abs_marker();
    let http = http_prefix();
    let tail = pdf_suffix();
    assert forall|m: int| 0 < m < 14 && 14 - m <= 4 implies abs.skip(m) != tail.take(14 - m) by {
        if abs.skip(m) == tail.take(14 - m) {
            assert(abs.skip(m)[0] == abs[m]);
            assert(tail.take(14 - m)[0] == tail[0]);
            assert(abs[m] != '.');
            assert(false);
        }
    }
    lemma_append_free(z, tail, abs);
    assert forall|m: int| 0 < m < 7 && 7 - m <= 4 implies http.skip(m) != tail.take(7 - m) by {
        if http.skip(m) == tail.take(7 - m) {
            assert(http.skip(m)[0] == http[m]);
            assert(tail.take(7 - m)[0] == tail[0]);
            assert(http[m] != '.');
            assert(false);
        }
    }
    lemma_append_free(z, tail, http);
}

/// The parser's invariant: the pending record exists exactly while the
/// parser is inside an entry.
pub open spec fn wf_parser(st: SpecParser) -> bool {
    st.current_paper is Some <==> st.in_entry
}

/// A fresh parser satisfies the invariant, and every step of the state
/// machine preserves it.
pub proof fn lemma_step_preserves_wf(st: SpecParser, ev: SpecEvent)
    requires
        wf_parser(st),
        spec_step(st, ev) is Some,
    ensures
        wf_parser(init_parser()),
        wf_parser(spec_step(st, ev)->Some_0),
{
}

/// How one event moves the active field while inside an entry.
pub open spec fn field_step(f: Option<Field>, ev: SpecEvent) -> Option<Field> {
    match ev {
        SpecEvent::Start(n) => if n == tag_title() {
            Some(Field::Title)
        } else if n == tag_author() {
            Some(Field::Author)
        } else if n == tag_summary() {
            Some(Field::Abstract)
        } else if n == tag_link() {
            Some(Field::Link)
        } else if n == tag_category() {
            Some(Field::Category)
        } else {
            f
        },
        SpecEvent::End(n) => if n == tag_title() || n == tag_author() || n == tag_summary() || n
            == tag_link() || n == tag_category() {
            None
        } else {
            f
        },
        _ => f,
    }
}

/// The active field after a sequence of events inside an entry.
pub open spec fn field_run(f: Option<Field>, body: Seq<SpecEvent>) -> Option<Field>
    decreases body.len(),
{
    if body.len() == 0 {
        f
    } else {
        field_run(field_step(f, body[0]), body.skip(1))
    }
}

/// No event of the sequence opens or closes an entry.
pub open spec fn no_entry_marks(body: Seq<SpecEvent>) -> bool {
    forall|i: int|
        0 <= i < body.len() ==> (match #[trigger] body[i] {
            SpecEvent::Start(n) => n != tag_entry(),
            SpecEvent::End(n) => n != tag_entry(),
            _ => true,
        })
}

/// Every value the parser would read from the attributes under `key`
/// decodes as UTF-8.
pub open spec fn attr_values_decode(attrs: Seq<SpecAttr>, key: Seq<u8>) -> bool {
    forall|i: int|
        0 <= i < attrs.len() && (#[trigger] attrs[i]).key == key ==> valid_utf8(attrs[i].value)
}

/// Every text and every tracked attribute value of the event decodes.
pub open spec fn event_decodes(ev: SpecEvent) -> bool {
    match ev {
        SpecEvent::Text(t) => valid_utf8(t),
        SpecEvent::Empty(n, attrs) => (n == tag_link() ==> attr_values_decode(attrs, attr_href()))
            && (n == tag_category() ==> attr_values_decode(attrs, attr_term())),
        _ => true,
    }
}

pub open spec fn body_decodes(body: Seq<SpecEvent>) -> bool {
    forall|i: int| 0 <= i < body.len() ==> event_decodes(#[trigger] body[i])
}

/// A well-formed entry body: it neither opens nor closes an entry, it
/// holds no end-of-document event, its texts and tracked attribute
/// values decode, and its field tags are balanced.
pub open spec fn wf_body(body: Seq<SpecEvent>) -> bool {
    &&& no_entry_marks(body)
    &&& body_decodes(body)
    &&& field_run(None, body) is None
    &&& forall|i: int| 0 <= i < body.len() ==> !((#[trigger] body[i]) is Eof)
}

/// The author texts of an entry body: the texts that occur while the
/// active field is the author field, in source order, duplicates kept.
pub open spec fn author_texts(f: Option<Field>, body: Seq<SpecEvent>) -> Seq<Seq<char>>
    decreases body.len(),
{
    if body.len() == 0 {
        Seq::empty()
    } else {
        let head: Seq<Seq<char>> = match body[0] {
            SpecEvent::Text(t) => if f == Some(Field::Author) && valid_utf8(t) {
                seq![decode_utf8(t)]
            } else {
                Seq::empty()
            },
            _ => Seq::empty(),
        };
        head + author_texts(field_step(f, body[0]), body.skip(1))
    }
}

/// The ordered author texts of one entry, duplicates kept.
pub open spec fn entry_authors(body: Seq<SpecEvent>) -> Seq<Seq<char>> {
    author_texts(None, body)
}

/// The decoded `term` values of an attribute list, in source order.
pub open spec fn terms_of(attrs: Seq<SpecAttr>) -> Seq<Seq<char>>
    decreases attrs.len(),
{
    if attrs.len() == 0 {
        Seq::empty()
    } else {
        let head: Seq<Seq<char>> = if attrs[0].key == attr_term() && valid_utf8(attrs[0].value) {
            seq![decode_utf8(attrs[0].value)]
        } else {
            Seq::empty()
        };
        head + terms_of(attrs.skip(1))
    }
}

/// The category terms of an entry body: the `term` values of its
/// category tags, in source order, duplicates kept.
pub open spec fn category_terms(body: Seq<SpecEvent>) -> Seq<Seq<char>>
    decreases body.len(),
{
    if body.len() == 0 {
        Seq::empty()
    } else {
        let head: Seq<Seq<char>> = match body[0] {
            SpecEvent::Empty(n, attrs) => if n == tag_category() {
                terms_of(attrs)
            } else {
                Seq::empty()
            },
            _ => Seq::empty(),
        };
        head + category_terms(body.skip(1))
    }
}

/// Folding a link tag's attributes succeeds when every `href` decodes,
/// and changes nothing but the URL.
proof fn lemma_link_attrs_some(p: crate::records::SpecPaper, attrs: Seq<SpecAttr>)
    requires
        attr_values_decode(attrs, attr_href()),
    ensures
        spec_link_attrs(p, attrs) is Some,
        (spec_link_attrs(p, attrs)->Some_0).title == p.title,
        (spec_link_attrs(p, attrs)->Some_0).authors == p.authors,
        (spec_link_attrs(p, attrs)->Some_0).abstract_text == p.abstract_text,
        (spec_link_attrs(p, attrs)->Some_0).categories == p.categories,
    decreases attrs.len(),
{
    if attrs.len() == 0 {
    } else {
        assert forall|i: int|
            0 <= i < attrs.skip(1).len() && (#[trigger] attrs.skip(1)[i]).key == attr_href()
                implies valid_utf8(attrs.skip(1)[i].value) by {
            assert(attrs.skip(1)[i] == attrs[i + 1]);
        }
        if attrs[0].key == attr_href() {
            lemma_link_attrs_some(
                crate::records::SpecPaper {
                    url: spec_normalize(decode_utf8(attrs[0].value)),
                    ..p
                },
                attrs.skip(1),
            );
        } else {
            lemma_link_attrs_some(p, attrs.skip(1));
        }
    }
}

/// Folding a category tag's attributes succeeds when every `term`
/// decodes, and appends exactly the decoded terms in order.
proof fn lemma_cat_attrs(c: Seq<Seq<char>>, attrs: Seq<SpecAttr>)
    requires
        attr_values_decode(attrs, attr_term()),
    ensures
        spec_cat_attrs(c, attrs) == Some(c + terms_of(attrs)),
    decreases attrs.len(),
{
    if attrs.len() == 0 {
        assert(c + terms_of(attrs) =~= c);
    } else {
        assert forall|i: int|
            0 <= i < attrs.skip(1).len() && (#[trigger] attrs.skip(1)[i]).key == attr_term()
                implies valid_utf8(attrs.skip(1)[i].value) by {
            assert(attrs.skip(1)[i] == attrs[i + 1]);
        }
        if attrs[0].key == attr_term() {
            lemma_cat_attrs(c.push(decode_utf8(attrs[0].value)), attrs.skip(1));
            assert(c.push(decode_utf8(attrs[0].value)) + terms_of(attrs.skip(1)) =~= c + terms_of(
                attrs,
            ));
        } else {
            lemma_cat_attrs(c, attrs.skip(1));
            assert(c + terms_of(attrs.skip(1)) =~= c + terms_of(attrs));
        }
    }
}

/// The central lemma of the parser's laws: over a well-formed entry
/// body, the run succeeds, stays inside the entry with a pending record,
/// leaves the finished records alone, moves the active field as the tag
/// structure says, and accumulates exactly the entry's author texts and
/// category terms, in order.
proof fn lemma_body_run(st: SpecParser, body: Seq<SpecEvent>)
    requires
        st.in_entry,
        st.current_paper is Some,
        no_entry_marks(body),
        body_decodes(body),
    ensures
        spec_run(st, body) is Some,
        (spec_run(st, body)->Some_0).in_entry,
        (spec_run(st, body)->Some_0).current_paper is Some,
        (spec_run(st, body)->Some_0).papers == st.papers,
        (spec_run(st, body)->Some_0).current_field == field_run(st.current_field, body),
        (spec_run(st, body)->Some_0).current_authors == st.current_authors + author_texts(
            st.current_field,
            body,
        ),
        (spec_run(st, body)->Some_0).current_categories == st.current_categories + category_terms(
            body,
        ),
    decreases body.len(),
{
    if body.len() == 0 {
        assert(st.current_authors + author_texts(st.current_field, body) =~= st.current_authors);
        assert(st.current_categories + category_terms(body) =~= st.current_categories);
    } else {
        let ev = body[0];
        assert(event_decodes(ev));
        let tail = body.skip(1);
        assert forall|i: int|
            0 <= i < tail.len() implies (match #[trigger] tail[i] {
            SpecEvent::Start(n) => n != tag_entry(),
            SpecEvent::End(n) => n != tag_entry(),
            _ => true,
        }) && event_decodes(tail[i]) by {
            assert(tail[i] == body[i + 1]);
        }
        let step = spec_step(st, ev);
        match ev {
            SpecEvent::Empty(n, attrs) => {
                if n == tag_link() {
                    lemma_link_attrs_some(st.current_paper->Some_0, attrs);
                } else if n == tag_category() {
                    lemma_cat_attrs(st.current_categories, attrs);
                }
            },
            _ => {},
        }
        assert(step is Some);
        let st2 = step->Some_0;
        lemma_body_run(st2, tail);
        assert(st2.current_field == field_step(st.current_field, ev));
        assert(st2.current_authors + author_texts(st2.current_field, tail) =~= st.current_authors
            + author_texts(st.current_field, body));
        assert(st2.current_categories + category_terms(tail) =~= st.current_categories
            + category_terms(body));
    }
}

/// Splitting a run at any point gives the same result.
pub proof fn lemma_run_concat(st: SpecParser, a: Seq<SpecEvent>, b: Seq<SpecEvent>)
    ensures
        spec_run(st, a + b) == (match spec_run(st, a) {
            None => None,
            Some(m) => spec_run(m, b),
        }),
    decreases a.len(),
{
    reveal_with_fuel(spec_run, 2);
    if a.len() == 0 {
        assert(a + b =~= b);
    } else {
        assert((a + b)[0] == a[0]);
        assert((a + b).skip(1) =~= a.skip(1) + b);
        match spec_step(st, a[0]) {
            None => {},
            Some(m) => {
                lemma_run_concat(m, a.skip(1), b);
            },
        }
    }
}

/// The event stream of one entry: its start tag, its body, its end tag.
pub open spec fn entry_events(body: Seq<SpecEvent>) -> Seq<SpecEvent> {
    seq![SpecEvent::Start(tag_entry())] + body + seq![SpecEvent::End(tag_entry())]
}

/// Running one well-formed entry appends exactly one record, whose
/// authors are the entry's author texts and whose categories are the
/// entry's category terms, in source order.
proof fn lemma_entry_run(st: SpecParser, body: Seq<SpecEvent>)
    requires
        !st.in_entry,
        st.current_paper is None,
        st.current_field is None,
        wf_body(body),
    ensures
        spec_run(st, entry_events(body)) is Some,
        (spec_run(st, entry_events(body))->Some_0).papers == st.papers.push(
            (spec_run(st, entry_events(body))->Some_0).papers.last(),
        ),
        (spec_run(st, entry_events(body))->Some_0).papers.last().authors == entry_authors(
            body,
        ),
        (spec_run(st, entry_events(body))->Some_0).papers.last().categories == category_terms(
            body,
        ),
        !(spec_run(st, entry_events(body))->Some_0).in_entry,
        (spec_run(st, entry_events(body))->Some_0).current_paper is None,
        (spec_run(st, entry_events(body))->Some_0).current_field is None,
{
    reveal_with_fuel(spec_run, 2);
    let a: Seq<SpecEvent> = seq![SpecEvent::Start(tag_entry())];
    let b: Seq<SpecEvent> = seq![SpecEvent::End(tag_entry())];
    assert(entry_events(body) =~= a + (body + b));
    lemma_run_concat(st, a, body + b);
    assert(a.skip(1) =~= Seq::<SpecEvent>::empty());
    let st1 = spec_start(st, tag_entry());
    assert(spec_run(st, a) == Some(st1));
    lemma_run_concat(st1, body, b);
    lemma_body_run(st1, body);
    let stb = spec_run(st1, body)->Some_0;
    assert(stb.current_authors =~= entry_authors(body));
    assert(stb.current_categories =~= category_terms(body));
    assert(b.skip(1) =~= Seq::<SpecEvent>::empty());
}

/// An event that opens no entry and is not the end of the document:
/// outside an entry — the feed's own tags, its text, self-closing tags,
/// stray end tags — every such event leaves the parser unchanged.
pub open spec fn outside_event(ev: SpecEvent) -> bool {
    match ev {
        SpecEvent::Start(n) => n != tag_entry(),
        SpecEvent::Eof => false,
        _ => true,
    }
}

pub open spec fn all_outside(pad: Seq<SpecEvent>) -> bool {
    forall|i: int| 0 <= i < pad.len() ==> outside_event(#[trigger] pad[i])
}

/// Outside an entry, events that open no entry are no-ops.
proof fn lemma_outside_run(st: SpecParser, pad: Seq<SpecEvent>)
    requires
        !st.in_entry,
        st.current_paper is None,
        st.current_field is None,
        all_outside(pad),
    ensures
        spec_run(st, pad) == Some(st),
    decreases pad.len(),
{
    if pad.len() == 0 {
    } else {
        assert(outside_event(pad[0]));
        assert(spec_step(st, pad[0]) == Some(st));
        assert forall|i: int| 0 <= i < pad.skip(1).len() implies outside_event(
            #[trigger] pad.skip(1)[i],
        ) by {
            assert(pad.skip(1)[i] == pad[i + 1]);
        }
        lemma_outside_run(st, pad.skip(1));
    }
}

/// The event stream of a whole feed document: the events before, between
/// and after the entries — none of them opening an entry — interleaved
/// with the entries themselves. `pads` holds one stretch more than
/// `bodies`.
pub open spec fn feed_events(pads: Seq<Seq<SpecEvent>>, bodies: Seq<Seq<SpecEvent>>) -> Seq<
    SpecEvent,
>
    decreases bodies.len(),
{
    if bodies.len() == 0 {
        if pads.len() > 0 {
            pads[0]
        } else {
            Seq::empty()
        }
    } else {
        pads[0] + (entry_events(bodies[0]) + feed_events(pads.skip(1), bodies.skip(1)))
    }
}

/// One record per well-formed entry, in document order, whatever stands
/// around and between the entries; earlier records are untouched; each
/// new record's authors equal the ordered author texts of its entry,
/// duplicates included, and its categories equal the ordered `term`
/// values of its entry, duplicates included.
pub proof fn lemma_parse_feed(
    st: SpecParser,
    pads: Seq<Seq<SpecEvent>>,
    bodies: Seq<Seq<SpecEvent>>,
)
    requires
        !st.in_entry,
        st.current_paper is None,
        st.current_field is None,
        pads.len() == bodies.len() + 1,
        forall|k: int| 0 <= k < pads.len() ==> all_outside(#[trigger] pads[k]),
        forall|k: int| 0 <= k < bodies.len() ==> wf_body(#[trigger] bodies[k]),
    ensures
        spec_run(st, feed_events(pads, bodies)) is Some,
        (spec_run(st, feed_events(pads, bodies))->Some_0).papers.len() == st.papers.len()
            + bodies.len(),
        forall|k: int|
            0 <= k < st.papers.len() ==> (spec_run(st, feed_events(pads, bodies))->Some_0).papers[k]
                == st.papers[k],
        forall|k: int|
            0 <= k < bodies.len() ==> (spec_run(
                st,
                feed_events(pads, bodies),
            )->Some_0).papers[st.papers.len() + k].authors == entry_authors(#[trigger] bodies[k]),
        forall|k: int|
            0 <= k < bodies.len() ==> (spec_run(
                st,
                feed_events(pads, bodies),
            )->Some_0).papers[st.papers.len() + k].categories == category_terms(
                #[trigger] bodies[k],
            ),
        !(spec_run(st, feed_events(pads, bodies))->Some_0).in_entry,
        (spec_run(st, feed_events(pads, bodies))->Some_0).current_paper is None,
        (spec_run(st, feed_events(pads, bodies))->Some_0).current_field is None,
    decreases bodies.len(),
{
    assert(all_outside(pads[0]));
    if bodies.len() == 0 {
        lemma_outside_run(st, pads[0]);
    } else {
        let pad = pads[0];
        let ent = entry_events(bodies[0]);
        let rest = feed_events(pads.skip(1), bodies.skip(1));
        lemma_run_concat(st, pad, ent + rest);
        lemma_outside_run(st, pad);
        lemma_run_concat(st, ent, rest);
        lemma_entry_run(st, bodies[0]);
        let m = spec_run(st, ent)->Some_0;
        assert forall|k: int| 0 <= k < pads.skip(1).len() implies all_outside(
            #[trigger] pads.skip(1)[k],
        ) by {
            assert(pads.skip(1)[k] == pads[k + 1]);
        }
        assert forall|k: int| 0 <= k < bodies.skip(1).len() implies wf_body(
            #[trigger] bodies.skip(1)[k],
        ) by {
            assert(bodies.skip(1)[k] == bodies[k + 1]);
        }
        lemma_parse_feed(m, pads.skip(1), bodies.skip(1));
        let fin = spec_run(m, rest)->Some_0;
        assert(m.papers.len() == st.papers.len() + 1);
        assert forall|k: int| 0 <= k < st.papers.len() implies fin.papers[k] == st.papers[k] by {
            assert(fin.papers[k] == m.papers[k]);
            assert(m.papers[k] == st.papers.push(m.papers.last())[k]);
        }
        assert forall|k: int|
            0 <= k < bodies.len() implies fin.papers[st.papers.len() + k].authors == entry_authors(
            #[trigger] bodies[k],
        ) && fin.papers[st.papers.len() + k].categories == category_terms(bodies[k]) by {
            if k == 0 {
                assert(fin.papers[st.papers.len() as int] == m.papers[st.papers.len() as int]);
                assert(m.papers[st.papers.len() as int] == m.papers.last());
            } else {
                assert(bodies.skip(1)[k - 1] == bodies[k]);
                assert(fin.papers[m.papers.len() + (k - 1)].authors == entry_authors(
                    bodies.skip(1)[k - 1],
                ));
                assert(fin.papers[m.papers.len() + (k - 1)].categories == category_terms(
                    bodies.skip(1)[k - 1],
                ));
            }
        }
    }
}

/// No event of a feed's stream is the end-of-document event.
proof fn lemma_feed_events_no_eof(pads: Seq<Seq<SpecEvent>>, bodies: Seq<Seq<SpecEvent>>)
    requires
        pads.len() == bodies.len() + 1,
        forall|k: int| 0 <= k < pads.len() ==> all_outside(#[trigger] pads[k]),
        forall|k: int| 0 <= k < bodies.len() ==> wf_body(#[trigger] bodies[k]),
    ensures
        forall|i: int|
            0 <= i < feed_events(pads, bodies).len() ==> !((#[trigger] feed_events(pads, bodies)[i]) is Eof),
    decreases bodies.len(),
{
    assert(all_outside(pads[0]));
    if bodies.len() == 0 {
        assert forall|i: int|
            0 <= i < feed_events(pads, bodies).len() implies !((#[trigger] feed_events(
            pads,
            bodies,
        )[i]) is Eof) by {
            assert(outside_event(pads[0][i]));
        }
    } else {
        let pad = pads[0];
        let ent = entry_events(bodies[0]);
        let rest = feed_events(pads.skip(1), bodies.skip(1));
        assert(wf_body(bodies[0]));
        assert forall|k: int| 0 <= k < pads.skip(1).len() implies all_outside(
            #[trigger] pads.skip(1)[k],
        ) by {
            assert(pads.skip(1)[k] == pads[k + 1]);
        }
        assert forall|k: int| 0 <= k < bodies.skip(1).len() implies wf_body(
            #[trigger] bodies.skip(1)[k],
        ) by {
            assert(bodies.skip(1)[k] == bodies[k + 1]);
        }
        lemma_feed_events_no_eof(pads.skip(1), bodies.skip(1));
        assert forall|i: int|
            0 <= i < feed_events(pads, bodies).len() implies !((#[trigger] feed_events(
            pads,
            bodies,
        )[i]) is Eof) by {
            if i < pad.len() {
                assert(feed_events(pads, bodies)[i] == pad[i]);
                assert(outside_event(pad[i]));
            } else if i < pad.len() + ent.len() {
                assert(feed_events(pads, bodies)[i] == ent[i - pad.len()]);
                if 1 <= i - pad.len() < ent.len() - 1 {
                    assert(ent[i - pad.len()] == bodies[0][i - pad.len() - 1]);
                }
            } else {
                assert(feed_events(pads, bodies)[i] == rest[i - pad.len() - ent.len()]);
            }
        }
    }
}

/// The bridge from the record laws to the parser's contract: a document
/// whose event stream holds well-formed entries, anything that opens no
/// entry around and between them, and the end of the document, parses
/// cleanly to exactly one record per entry, in document order, each with
/// its entry's ordered author texts and category terms.
pub proof fn lemma_parse_feed_stream(pads: Seq<Seq<SpecEvent>>, bodies: Seq<Seq<SpecEvent>>)
    requires
        pads.len() == bodies.len() + 1,
        forall|k: int| 0 <= k < pads.len() ==> all_outside(#[trigger] pads[k]),
        forall|k: int| 0 <= k < bodies.len() ==> wf_body(#[trigger] bodies[k]),
    ensures
        ({
            let r = crate::parser::run_stream(
                init_parser(),
                feed_events(pads, bodies).push(SpecEvent::Eof),
            );
            &&& r matches crate::parser::StreamResult::Parsed(st2)
            &&& st2.papers.len() == bodies.len()
            &&& forall|k: int|
                0 <= k < bodies.len() ==> (#[trigger] st2.papers[k]).authors == entry_authors(
                    bodies[k],
                ) && st2.papers[k].categories == category_terms(bodies[k])
        }),
{
    let pre = feed_events(pads, bodies);
    lemma_parse_feed(init_parser(), pads, bodies);
    lemma_feed_events_no_eof(pads, bodies);
    lemma_run_stream_extend(init_parser(), pre, seq![SpecEvent::Eof]);
    assert(pre + seq![SpecEvent::Eof] =~= pre.push(SpecEvent::Eof));
    let st2 = spec_run(init_parser(), pre)->Some_0;
    assert(crate::parser::run_stream(st2, seq![SpecEvent::Eof])
        == crate::parser::StreamResult::Parsed(st2));
}

/// A run whose events close no entry appends no record: a document
/// without entries leaves the output empty, so a parse of it reports
/// that nothing was found.
pub proof fn lemma_no_entries_no_records(st: SpecParser, evs: Seq<SpecEvent>)
    requires
        forall|i: int|
            0 <= i < evs.len() ==> (match #[trigger] evs[i] {
                SpecEvent::End(n) => n != tag_entry(),
                _ => true,
            }),
        spec_run(st, evs) is Some,
    ensures
        (spec_run(st, evs)->Some_0).papers == st.papers,
    decreases evs.len(),
{
    if evs.len() == 0 {
    } else {
        let st2 = spec_step(st, evs[0])->Some_0;
        assert(st2.papers == st.papers);
        assert forall|i: int|
            0 <= i < evs.skip(1).len() implies (match #[trigger] evs.skip(1)[i] {
            SpecEvent::End(n) => n != tag_entry(),
            _ => true,
        }) by {
            assert(evs.skip(1)[i] == evs[i + 1]);
        }
        lemma_no_entries_no_records(st2, evs.skip(1));
    }
}

/// The URL normalizer is idempotent: applying it to its own output
/// yields that output unchanged.
pub proof fn lemma_normalize_idempotent(u: Seq<char>)
    ensures
        spec_normalize(spec_normalize(u)) == spec_normalize(u),
{
    reveal_strlit("arxiv.org/abs/");
    reveal_strlit("arxiv.org/pdf/");
    reveal_strlit("http://");
    reveal_strlit("https://");
    reveal_strlit(".pdf");
    if contains_seq(u, abs_marker()) {
        let z1 = replace_seq(u, abs_marker(), pdf_marker());
        let z2 = replace_seq(z1, http_prefix(), https_prefix());
        let y = z2 + pdf_suffix();
        lemma_abs_gone(u);
        lemma_secure_keeps_no_abs(z1);
        lemma_secure_no_http(z1);
        lemma_pdf_suffix_free(z2);
        assert(spec_normalize(u) == y);
        lemma_replace_id(y, http_prefix(), https_prefix());
        assert(spec_normalize(y) == y);
    } else {
        let w = replace_seq(u, http_prefix(), https_prefix());
        lemma_secure_keeps_no_abs(u);
        lemma_secure_no_http(u);
        assert(spec_normalize(u) == w);
        lemma_replace_id(w, http_prefix(), https_prefix());
        assert(spec_normalize(w) == w);
    }
}

} // verus!
