//! A PDF of a text.
use crate::structure::Text;
use pdf_oxide::api::Pdf;
use vstd::prelude::*;

verus! {

#[verifier::external_type_specification]
#[verifier::external_body]
pub struct ExPdf(Pdf);

#[verifier::external_type_specification]
#[verifier::external_body]
pub struct ExPdfOxideError(pdf_oxide::Error);

/// Why a PDF could not be made.
#[derive(Debug)]
pub enum PdfError {
    /// The PDF library could not lay out the text.
    Render(pdf_oxide::Error),
}

/// Whether `Pdf::from_text` makes a PDF of the given text. On that path
/// the library lays the text out with its built-in fonts, so the outcome
/// depends on the text alone.
pub uninterp spec fn pdf_text_renders(content: Seq<char>) -> bool;

/// `Pdf::from_text`: a PDF of the given plain text. It succeeds exactly
/// where `pdf_text_renders` holds of the text; what the PDF holds is left
/// unsaid.
#[verifier::external_body]
fn pdf_from_text(content: &str) -> (r: Result<Pdf, pdf_oxide::Error>)
    ensures
        r is Ok <==> pdf_text_renders(content@),
{
    Pdf::from_text(content)
}

/// `Pdf::set_title`: sets the document title where the PDF has a document
/// editor, and fails where it has none (as on a PDF made from text); its
/// result and its effect on the PDF are left unsaid.
#[verifier::external_body]
fn pdf_set_title(pdf: &mut Pdf, title: &str) -> (r: Result<(), pdf_oxide::Error>) {
    pdf.set_title(title)
}

/// What follows the making of the PDF: a made PDF is handed back (after an
/// attempt to title it, whose outcome is ignored), a failure becomes
/// `PdfError::Render` with the library's error.
pub fn finish_pdf(made: Result<Pdf, pdf_oxide::Error>) -> (r: Result<Pdf, PdfError>)
    ensures
        r is Ok <==> made is Ok,
        made matches Err(e) ==> r == Err::<Pdf, PdfError>(PdfError::Render(e)),
{
    match made {
        Ok(pdf) => {
            let mut pdf = pdf;
            let _ = pdf_set_title(&mut pdf, "foobar");
            Ok(pdf)
        },
        Err(e) => Err(PdfError::Render(e)),
    }
}

/// A PDF made from the text "Sicha Weekly", the same for every input text:
/// the lines of the text are not written into it, and the title that is
/// asked for is not set, since a PDF made from text has no document editor.
/// An error where the PDF library cannot make it.
pub fn create_pdf(_text: &Text) -> (r: Result<Pdf, PdfError>)
    ensures
        r is Ok <==> pdf_text_renders("Sicha Weekly"@),
{
    let made = pdf_from_text("Sicha Weekly");
    finish_pdf(made)
}

} // verus!
