//! Loading a PDF through `lopdf`: the object tree, decryption, the
//! validation pass over the object table, and the naive per-page text path.
//!
//! What `lopdf` reports of a document is named by [`pdf_facts`]; the
//! loading and parsing decisions are verified against those names.

use vstd::prelude::*;

use crate::error::PdfmuseError;
use crate::ir::{Metadata, Page, SourceKind, Warning, WarningKind};
use crate::pdf::objects::{details, document_level, validate, validate_spec, ObjectId, PdfObject};
use crate::pdf::page::{naive_page, naive_page_fits, naive_warning, page_index, text_result, warning_view};

verus! {

/// A document as `lopdf` holds it. Its contents are opaque to the proofs;
/// what `lopdf` reports of them is named by [`pdf_facts`].
#[verifier::external_body]
pub struct LoPdf {
    pub doc: lopdf::Document,
}

#[verifier::external_type_specification]
#[verifier::external_body]
pub struct ExLoObject(lopdf::Object);

/// What `lopdf` reports of a document's content: its object table (in
/// object-id order) as the validation pass reads it, its pages as
/// `(1-based page number, page object)` in page order, and the text
/// `extract_text` gives for each page number.
pub ghost struct PdfContent {
    pub objects: Seq<(ObjectId, PdfObject)>,
    pub pages: Seq<(u32, ObjectId)>,
    pub page_text: spec_fn(u32) -> Result<Seq<char>, Seq<char>>,
}

/// What `lopdf` reports of a loaded document: whether it is encrypted, its
/// content, which passwords `decrypt` accepts, and the content `decrypt`
/// leaves behind for each accepted password.
pub ghost struct PdfFacts {
    pub encrypted: bool,
    pub content: PdfContent,
    pub unlocks: spec_fn(Seq<char>) -> bool,
    pub unlocked: spec_fn(Seq<char>) -> PdfContent,
}

/// What `lopdf` reports of a document.
pub uninterp spec fn pdf_facts(d: LoPdf) -> PdfFacts;

/// What `lopdf::Document::load_mem` makes of `data`: the loaded document's
/// facts, or the crate's error message.
pub uninterp spec fn pdf_load(data: Seq<u8>) -> Result<PdfFacts, Seq<char>>;

/// `lopdf::Document::load_mem`. The contract claims that the load succeeds
/// or fails as a function of the bytes, with the crate's error message.
#[verifier::external_body]
fn load_mem(data: &[u8]) -> (r: Result<LoPdf, String>)
    ensures
        match r {
            Ok(d) => pdf_load(data@) == Ok::<PdfFacts, Seq<char>>(pdf_facts(d)),
            Err(m) => pdf_load(data@) == Err::<PdfFacts, Seq<char>>(m@),
        },
{
    lopdf::Document::load_mem(data).map(|doc| LoPdf { doc }).map_err(|e| e.to_string())
}

/// `lopdf::Document::is_encrypted`.
#[verifier::external_body]
fn is_encrypted(d: &LoPdf) -> (b: bool)
    ensures
        b == pdf_facts(*d).encrypted,
{
    d.doc.is_encrypted()
}

/// `lopdf::Document::decrypt`: whether it succeeded. On success the
/// document is no longer encrypted (lopdf removes `/Encrypt` from the
/// trailer) and its content is the decrypted content that the loaded
/// document's facts name for the password. Nothing is claimed of the
/// document after a failure.
#[verifier::external_body]
fn decrypt(d: &mut LoPdf, password: &str) -> (ok: bool)
    ensures
        ok == (pdf_facts(*old(d)).unlocks)(password@),
        ok ==> !pdf_facts(*final(d)).encrypted,
        ok ==> pdf_facts(*final(d)).content == (pdf_facts(*old(d)).unlocked)(password@),
{
    d.doc.decrypt(password).is_ok()
}

/// A `lopdf` object as the validation pass reads it (references, and the
/// values of arrays, dictionaries and stream dictionaries). Nothing is
/// claimed here; the claim is made of the whole table by [`object_table`].
#[verifier::external_body]
fn to_pdf_object(o: &lopdf::Object) -> PdfObject {
    match o {
        lopdf::Object::Reference((n, g)) => PdfObject::Reference(*n, *g),
        lopdf::Object::Array(items) => PdfObject::Array(items.iter().map(to_pdf_object).collect()),
        lopdf::Object::Dictionary(d) => PdfObject::Dictionary(d.iter().map(|(_, v)| to_pdf_object(v)).collect()),
        lopdf::Object::Stream(s) => PdfObject::Stream(s.dict.iter().map(|(_, v)| to_pdf_object(v)).collect()),
        _ => PdfObject::Other,
    }
}

/// The document's object table (`lopdf::Document::objects`, in id order),
/// each object converted by [`to_pdf_object`].
#[verifier::external_body]
fn object_table(d: &LoPdf) -> (t: Vec<(ObjectId, PdfObject)>)
    ensures
        t@ == pdf_facts(*d).content.objects,
{
    d.doc.objects.iter().map(|(id, o)| (*id, to_pdf_object(o))).collect()
}

/// `lopdf::Document::get_pages`, in page order. The contract also claims
/// what its source shows: the pages are numbered 1, 2, ... in order.
#[verifier::external_body]
fn page_list(d: &LoPdf) -> (p: Vec<(u32, ObjectId)>)
    ensures
        p@ == pdf_facts(*d).content.pages,
        forall|k: int| 0 <= k < p@.len() ==> #[trigger] p@[k].0 == k + 1,
{
    d.doc.get_pages().into_iter().collect()
}

/// `lopdf::Document::extract_text` for one page, with the crate's error
/// message on failure.
#[verifier::external_body]
fn page_text(d: &LoPdf, page: u32) -> (r: Result<String, String>)
    ensures
        text_result(r) == (pdf_facts(*d).content.page_text)(page),
{
    d.doc.extract_text(&[page]).map_err(|e| e.to_string())
}

/// A loaded PDF document.
pub struct PdfDoc {
    pub inner: LoPdf,
}

/// The password tried on an encrypted document: the given one, else the
/// empty user password.
pub open spec fn password_tried(password: Option<Seq<char>>) -> Seq<char> {
    match password {
        Some(p) => p,
        None => Seq::empty(),
    }
}

/// The validation warnings of an object table are document-level and read
/// as `validate_spec` says.
pub open spec fn validated(ws: Seq<Warning>, objects: Seq<(ObjectId, PdfObject)>) -> bool {
    document_level(ws) && details(ws) == validate_spec(objects, objects.len() as int)
}

/// Load bytes, decrypt if needed (with `password`, else the empty user
/// password), and run the validation pass. A broken container is
/// `Malformed` with `lopdf`'s message; a refused password is
/// `EncryptedNoPassword`. The password is never logged.
pub fn load(data: &[u8], password: Option<&str>) -> (r: Result<(PdfDoc, Vec<Warning>), PdfmuseError>)
    ensures
        match pdf_load(data@) {
            Err(m) => r matches Err(PdfmuseError::Malformed(mm)) && mm@ == m,
            Ok(f) => if !f.encrypted {
                r matches Ok((doc, ws)) && pdf_facts(doc.inner) == f && validated(ws@, f.content.objects)
            } else if (f.unlocks)(
                password_tried(
                    match password {
                        Some(p) => Some(p@),
                        None => None,
                    },
                ),
            ) {
                r matches Ok((doc, ws)) && !pdf_facts(doc.inner).encrypted && pdf_facts(doc.inner).content
                    == (f.unlocked)(
                    password_tried(
                        match password {
                            Some(p) => Some(p@),
                            None => None,
                        },
                    ),
                ) && validated(ws@, pdf_facts(doc.inner).content.objects)
            } else {
                r matches Err(PdfmuseError::EncryptedNoPassword)
            },
        },
{
    let mut inner = match load_mem(data) {
        Ok(d) => d,
        Err(m) => {
            return Err(PdfmuseError::Malformed(m));
        },
    };
    let ghost loaded = pdf_facts(inner);
    if is_encrypted(&inner) {
        let pw: &str = match password {
            Some(p) => p,
            None => "",
        };
        proof {
            reveal_strlit("");
        }
        assert(pw@ == password_tried(
            match password {
                Some(p) => Some(p@),
                None => None,
            },
        ));
        if !decrypt(&mut inner, pw) {
            return Err(PdfmuseError::EncryptedNoPassword);
        }
    }
    let table = object_table(&inner);
    let warnings = validate(&table);
    Ok((PdfDoc { inner }, warnings))
}

/// The page sizes that go with the pages: the `k`-th given size, or 0×0
/// when none is given.
pub open spec fn size_at(sizes: Seq<(i32, i32)>, k: int) -> (i32, i32) {
    if 0 <= k < sizes.len() {
        sizes[k]
    } else {
        (0, 0)
    }
}

/// The warnings the pages' text extraction leaves, in page order.
pub open spec fn extraction_warnings(f: PdfContent, n: int) -> Seq<(Option<u32>, WarningKind, Seq<char>)>
    decreases n,
{
    if n <= 0 || n > f.pages.len() {
        Seq::empty()
    } else {
        extraction_warnings(f, n - 1) + match naive_warning(f.pages[n - 1].0, (f.page_text)(f.pages[n - 1].0)) {
            Some(w) => seq![w],
            None => Seq::empty(),
        }
    }
}

pub open spec fn warning_views(ws: Seq<Warning>) -> Seq<(Option<u32>, WarningKind, Seq<char>)> {
    ws.map_values(|w: Warning| warning_view(w))
}

/// `d` is the naive document of a PDF whose facts are `f`, given the
/// earlier warnings and the page sizes.
pub open spec fn naive_document(d: crate::ir::Document, f: PdfContent, warnings: Seq<Warning>, sizes: Seq<(i32, i32)>) -> bool {
    &&& d.source == SourceKind::Pdf
    &&& d.metadata.page_count == f.pages.len() as u32
    &&& d.metadata.title is None
    &&& d.pages@.len() == f.pages.len()
    &&& forall|k: int|
        0 <= k < f.pages.len() ==> naive_page_fits(
            #[trigger] d.pages@[k],
            f.pages[k].0,
            size_at(sizes, k).0,
            size_at(sizes, k).1,
            (f.page_text)(f.pages[k].0),
        )
    &&& forall|k: int| 0 <= k < d.pages@.len() ==> #[trigger] d.pages@[k].index == k
    &&& warning_views(d.warnings@) == warning_views(warnings) + extraction_warnings(f, f.pages.len() as int)
}

/// The naive PDF document: one page per page of the document, in order,
/// each the naive page of its extracted text with the given size (see
/// [`naive_page`]); the given warnings followed by those the extraction
/// leaves. An encrypted document is refused.
pub fn parse_pdf(pdf: &PdfDoc, warnings: Vec<Warning>, sizes: &Vec<(i32, i32)>) -> (r: Result<crate::ir::Document, PdfmuseError>)
    ensures
        match r {
            Ok(d) => !pdf_facts(pdf.inner).encrypted && naive_document(d, pdf_facts(pdf.inner).content, warnings@, sizes@),
            Err(e) => pdf_facts(pdf.inner).encrypted && e is EncryptedNoPassword,
        },
{
    let ghost f = pdf_facts(pdf.inner).content;
    if is_encrypted(&pdf.inner) {
        return Err(PdfmuseError::EncryptedNoPassword);
    }
    let pages = page_list(&pdf.inner);
    let mut out_pages: Vec<Page> = Vec::new();
    let mut out_warnings = warnings;
    let ghost w0 = warning_views(out_warnings@);
    let mut k: usize = 0;
    while k < pages.len()
        invariant
            f == pdf_facts(pdf.inner).content,
            pages@ == f.pages,
            forall|j: int| 0 <= j < pages@.len() ==> #[trigger] pages@[j].0 == j + 1,
            k <= pages@.len(),
            out_pages@.len() == k,
            forall|j: int| 0 <= j < k ==> #[trigger] out_pages@[j].index == j,
            forall|j: int|
                0 <= j < k ==> naive_page_fits(
                    #[trigger] out_pages@[j],
                    f.pages[j].0,
                    size_at(sizes@, j).0,
                    size_at(sizes@, j).1,
                    (f.page_text)(f.pages[j].0),
                ),
            warning_views(out_warnings@) == w0 + extraction_warnings(f, k as int),
        decreases pages@.len() - k,
    {
        let (num, _id) = pages[k];
        let (w, h): (i32, i32) = if k < sizes.len() {
            sizes[k]
        } else {
            (0, 0)
        };
        let extracted = page_text(&pdf.inner, num);
        let (page, warning) = naive_page(num, w, h, extracted);
        out_pages.push(page);
        let ghost before = out_warnings@;
        match warning {
            Some(wn) => {
                out_warnings.push(wn);
                assert(warning_views(out_warnings@) =~= warning_views(before).push(warning_view(wn)));
            },
            None => {},
        }
        assert(w0 + extraction_warnings(f, k + 1) =~= w0 + extraction_warnings(f, k as int) + match naive_warning(
            f.pages[k as int].0,
            (f.page_text)(f.pages[k as int].0),
        ) {
            Some(x) => seq![x],
            None => Seq::empty(),
        });
        k = k + 1;
    }
    let count = pages.len() as u32;
    Ok(crate::ir::Document {
        source: SourceKind::Pdf,
        metadata: Metadata { page_count: count, title: None },
        pages: out_pages,
        warnings: out_warnings,
    })
}

} // verus!
