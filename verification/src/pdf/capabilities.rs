//! What of a document will be ignored or flattened, said before the talk.
//!
//! A PDF can ask for more than a presentation tool should grant. A backend
//! collects evidence of what a document asks for, and [`analyse`] turns the
//! evidence into findings that say what will happen. What is played, the
//! overlays that travel in Screen and Movie annotations, is not reported.

use crate::bytes::{occurs_at, text_bytes, utf8};
use crate::pdfwrite::tokenizer::{is_delimiter, is_delimiter_byte};
use crate::text::{
    decimal_text, hexadecimal_text, join, joined, lowercase, owned, push_decimal,
    push_hexadecimal, push_str, same_text, to_lowercase, views,
};
use vstd::prelude::*;
use vstd::slice::slice_subrange;

verus! {

/// How many findings of one kind are kept before the rest are counted.
pub const MAX_FINDINGS_PER_KIND: usize = 8;

/// What kind of thing will be ignored or flattened.
#[derive(Debug, Clone, Copy, PartialEq, Eq, Hash, Structural)]
pub enum FindingKind {
    /// An embedded media annotation that there is no player for.
    UnplayableMedia,
    /// Form fields, which are drawn as they were last saved.
    FormFields,
    /// Scripts of the document.
    DocumentJavaScript,
    /// Scripts of an annotation.
    AnnotationJavaScript,
    PageTransition,
    /// An action of an annotation that is not performed.
    UnsupportedAction,
    /// The document is encrypted or carries permission flags.
    Restricted,
    /// An XFA form.
    Xfa,
}

impl FindingKind {
    /// What the feature is called.
    pub open spec fn noun(self) -> Seq<char> {
        match self {
            FindingKind::UnplayableMedia => "embedded media"@,
            FindingKind::FormFields => "form fields"@,
            FindingKind::DocumentJavaScript => "document JavaScript"@,
            FindingKind::AnnotationJavaScript => "annotation JavaScript"@,
            FindingKind::PageTransition => "page transitions"@,
            FindingKind::UnsupportedAction => "unsupported link actions"@,
            FindingKind::Restricted => "document restrictions"@,
            FindingKind::Xfa => "XFA form"@,
        }
    }

    /// What the feature is called.
    pub fn label(self) -> (label: &'static str)
        ensures
            label@ == self.noun(),
    {
        match self {
            FindingKind::UnplayableMedia => "embedded media",
            FindingKind::FormFields => "form fields",
            FindingKind::DocumentJavaScript => "document JavaScript",
            FindingKind::AnnotationJavaScript => "annotation JavaScript",
            FindingKind::PageTransition => "page transitions",
            FindingKind::UnsupportedAction => "unsupported link actions",
            FindingKind::Restricted => "document restrictions",
            FindingKind::Xfa => "XFA form",
        }
    }
}

/// One thing to know before going on stage.
#[derive(Debug, Clone, PartialEq, Eq)]
pub struct CapabilityFinding {
    pub kind: FindingKind,
    /// The page that the feature belongs to, if it belongs to one.
    pub page: Option<usize>,
    /// What will happen.
    pub detail: String,
}

/// A finding, by its value.
pub struct Finding {
    pub kind: FindingKind,
    pub page: Option<usize>,
    pub detail: Seq<char>,
}

impl View for CapabilityFinding {
    type V = Finding;

    open spec fn view(&self) -> Finding {
        Finding { kind: self.kind, page: self.page, detail: self.detail@ }
    }
}

/// Findings, each by its value.
pub open spec fn finding_views(findings: Seq<CapabilityFinding>) -> Seq<Finding> {
    findings.map_values(|finding: CapabilityFinding| finding@)
}

/// A finding as one line, with the number of its page first if it has one.
pub open spec fn finding_line(finding: Finding) -> Seq<char> {
    match finding.page {
        Some(page) => "page "@ + decimal_text((page + 1) as nat) + ": "@ + finding.detail,
        None => finding.detail,
    }
}

impl CapabilityFinding {
    /// The finding as one line.
    pub fn describe(&self) -> (line: String)
        ensures
            line@ == finding_line(self@),
    {
        match self.page {
            Some(page) => {
                let mut line = owned("page ");
                crate::text::push_wide_decimal(&mut line, page as u128 + 1);
                push_str(&mut line, ": ");
                push_str(&mut line, self.detail.as_str());
                line
            },
            None => owned(self.detail.as_str()),
        }
    }
}

/// Everything in one document that will be ignored or flattened.
#[derive(Debug, Clone, PartialEq, Eq)]
pub struct DocumentCapabilities {
    pub findings: Vec<CapabilityFinding>,
}

impl Default for DocumentCapabilities {
    fn default() -> (capabilities: Self)
        ensures
            capabilities.findings@.len() == 0,
    {
        DocumentCapabilities { findings: Vec::new() }
    }
}

/// The findings of one kind among the first `n`.
pub open spec fn findings_of_kind(findings: Seq<Finding>, kind: FindingKind, n: nat) -> Seq<Finding>
    decreases n,
{
    if n == 0 {
        Seq::empty()
    } else if findings[n - 1].kind == kind {
        findings_of_kind(findings, kind, (n - 1) as nat).push(findings[n - 1])
    } else {
        findings_of_kind(findings, kind, (n - 1) as nat)
    }
}

/// The lines of a report for the first `n` findings.
pub open spec fn report_lines(findings: Seq<Finding>, n: nat) -> Seq<Seq<char>>
    decreases n,
{
    if n == 0 {
        Seq::empty()
    } else {
        report_lines(findings, (n - 1) as nat).push(
            "  ["@ + findings[n - 1].kind.noun() + "] "@ + finding_line(findings[n - 1]),
        )
    }
}

/// A report on findings.
pub open spec fn report_text(findings: Seq<Finding>) -> Seq<char> {
    if findings.len() == 0 {
        "nothing in this document will be ignored or flattened"@
    } else {
        joined(
            seq![
                decimal_text(findings.len())
                    + " thing(s) in this document will be ignored or flattened:"@,
            ] + report_lines(findings, findings.len()),
            "\n"@,
        )
    }
}

/// Findings that are borrowed, each by its value.
pub open spec fn borrowed_views(findings: Seq<&CapabilityFinding>) -> Seq<Finding> {
    Seq::new(findings.len(), |i: int| findings[i]@)
}

impl DocumentCapabilities {
    /// Is there nothing to report?
    pub fn is_empty(&self) -> (empty: bool)
        ensures
            empty == (self.findings@.len() == 0),
    {
        self.findings.len() == 0
    }

    /// How many findings there are.
    pub fn len(&self) -> (count: usize)
        ensures
            count == self.findings@.len(),
    {
        self.findings.len()
    }

    /// Is there a finding of this kind?
    pub fn has(&self, kind: FindingKind) -> (found: bool)
        ensures
            found == exists|i: int|
                0 <= i < self.findings@.len() && (#[trigger] self.findings@[i]).kind == kind,
    {
        let mut i: usize = 0;
        while i < self.findings.len()
            invariant
                i <= self.findings@.len(),
                forall|j: int| 0 <= j < i ==> (#[trigger] self.findings@[j]).kind != kind,
            decreases self.findings@.len() - i,
        {
            if self.findings[i].kind == kind {
                return true;
            }
            i += 1;
        }
        false
    }

    /// The findings of this kind.
    pub fn of_kind(&self, kind: FindingKind) -> (found: Vec<&CapabilityFinding>)
        ensures
            borrowed_views(found@) == findings_of_kind(
                finding_views(self.findings@),
                kind,
                self.findings@.len(),
            ),
    {
        let ghost all = finding_views(self.findings@);
        let mut found: Vec<&CapabilityFinding> = Vec::new();
        assert(borrowed_views(found@) =~= Seq::empty());
        let mut i: usize = 0;
        while i < self.findings.len()
            invariant
                i <= self.findings@.len(),
                all == finding_views(self.findings@),
                borrowed_views(found@) == findings_of_kind(all, kind, i as nat),
            decreases self.findings@.len() - i,
        {
            let ghost before = borrowed_views(found@);
            assert(all[i as int] == self.findings@[i as int]@);
            if self.findings[i].kind == kind {
                found.push(&self.findings[i]);
                assert(borrowed_views(found@) =~= before.push(all[i as int]));
            }
            i += 1;
        }
        found
    }

    /// The whole report, one finding to the line.
    pub fn to_report(&self) -> (report: String)
        ensures
            report@ == report_text(finding_views(self.findings@)),
    {
        if self.is_empty() {
            return owned("nothing in this document will be ignored or flattened");
        }
        let ghost all = finding_views(self.findings@);
        let mut lines: Vec<String> = Vec::new();
        let mut first = crate::text::decimal_string(self.findings.len() as u64);
        push_str(&mut first, " thing(s) in this document will be ignored or flattened:");
        let ghost heading = seq![first@];
        lines.push(first);
        assert(views(lines@) =~= heading + report_lines(all, 0));
        let mut i: usize = 0;
        while i < self.findings.len()
            invariant
                i <= self.findings@.len(),
                all == finding_views(self.findings@),
                views(lines@) == heading + report_lines(all, i as nat),
            decreases self.findings@.len() - i,
        {
            assert(all[i as int] == self.findings@[i as int]@);
            let mut line = owned("  [");
            push_str(&mut line, self.findings[i].kind.label());
            push_str(&mut line, "] ");
            let rest = self.findings[i].describe();
            push_str(&mut line, rest.as_str());
            let ghost added = line@;
            let ghost before = views(lines@);
            lines.push(line);
            i += 1;
            assert(views(lines@) =~= before.push(added));
            assert(views(lines@) =~= heading + report_lines(all, i as nat));
        }
        join(lines.as_slice(), "\n")
    }
}

/// The kind of form that a document declares.
#[derive(Debug, Clone, Copy, PartialEq, Eq, Structural)]
pub enum FormType {
    NoForm,
    AcroForm,
    Xfa,
}

impl Default for FormType {
    fn default() -> (form: Self)
        ensures
            form == FormType::NoForm,
    {
        FormType::NoForm
    }
}

/// The annotations that a decision is made about.
#[derive(Debug, Clone, Copy, PartialEq, Eq, Structural)]
pub enum AnnotationSubtype {
    Link,
    /// A form field.
    Widget,
    /// Carries an overlay, which is played.
    Screen,
    /// Carries an overlay, which is played.
    Movie,
    Sound,
    ThreeD,
    RichMedia,
    Other,
}

impl Default for AnnotationSubtype {
    fn default() -> (subtype: Self)
        ensures
            subtype == AnnotationSubtype::Other,
    {
        AnnotationSubtype::Other
    }
}

/// The action of an annotation.
#[derive(Debug, Clone, Copy, PartialEq, Eq, Structural)]
pub enum ActionKind {
    NoAction,
    /// A place in this document.
    GoTo,
    /// An address: an overlay, or something for the platform to open.
    Uri,
    /// Running a program or opening a file.
    Launch,
    /// A place in another document.
    RemoteGoTo,
    EmbeddedGoTo,
    /// Playing what is embedded.
    Rendition,
    /// Anything else, which is almost always a script.
    Unrecognised,
}

impl Default for ActionKind {
    fn default() -> (action: Self)
        ensures
            action == ActionKind::NoAction,
    {
        ActionKind::NoAction
    }
}

/// One annotation.
#[derive(Debug, Clone, PartialEq, Eq)]
pub struct AnnotationEvidence {
    pub subtype: AnnotationSubtype,
    pub action: ActionKind,
    /// The address of an action that has one.
    pub uri: Option<String>,
    /// The annotation has additional actions, which is where scripts live.
    pub has_additional_actions: bool,
}

impl Default for AnnotationEvidence {
    fn default() -> (annotation: Self)
        ensures
            annotation.subtype == AnnotationSubtype::Other,
            annotation.action == ActionKind::NoAction,
            annotation.uri is None,
            !annotation.has_additional_actions,
    {
        AnnotationEvidence {
            subtype: AnnotationSubtype::Other,
            action: ActionKind::NoAction,
            uri: None,
            has_additional_actions: false,
        }
    }
}

/// What was found on one page.
#[derive(Debug, Clone, PartialEq, Eq)]
pub struct PageEvidence {
    pub page: usize,
    pub annotations: Vec<AnnotationEvidence>,
    /// The transition that the page declares.
    pub transition: Option<String>,
}

impl Default for PageEvidence {
    fn default() -> (evidence: Self)
        ensures
            evidence.page == 0,
            evidence.annotations@.len() == 0,
            evidence.transition is None,
    {
        PageEvidence { page: 0, annotations: Vec::new(), transition: None }
    }
}

/// How a document is restricted.
#[derive(Debug, Clone, Copy, PartialEq, Eq, Structural)]
pub struct RestrictionEvidence {
    /// The revision of the security handler; zero where there is none.
    pub security_revision: i32,
    /// The permission bits.
    pub permissions: u32,
}

/// What was found in a document.
#[derive(Debug, Clone, PartialEq, Eq)]
pub struct DocumentEvidence {
    pub form_type: FormType,
    /// The names of the scripts of the document.
    pub document_javascript: Vec<String>,
    pub restriction: Option<RestrictionEvidence>,
    pub pages: Vec<PageEvidence>,
    /// Transitions that were found, though not on which page.
    pub transition_styles: Vec<String>,
}

impl Default for DocumentEvidence {
    fn default() -> (evidence: Self)
        ensures
            evidence.form_type == FormType::NoForm,
            evidence.document_javascript@.len() == 0,
            evidence.restriction is None,
            evidence.pages@.len() == 0,
            evidence.transition_styles@.len() == 0,
    {
        DocumentEvidence {
            form_type: FormType::NoForm,
            document_javascript: Vec::new(),
            restriction: None,
            pages: Vec::new(),
            transition_styles: Vec::new(),
        }
    }
}

/// How many names of a list are shown.
pub const SHOWN: usize = 3;

/// Names, of which only the first are shown when there are many.
pub open spec fn summarised(names: Seq<Seq<char>>) -> Seq<char> {
    if names.len() <= SHOWN {
        joined(names, ", "@)
    } else {
        joined(names.take(SHOWN as int), ", "@) + ", …"@
    }
}

fn summarise_names(names: &[String]) -> (summary: String)
    ensures
        summary@ == summarised(views(names@)),
{
    if names.len() <= SHOWN {
        return join(names, ", ");
    }
    let first = slice_subrange(names, 0, SHOWN);
    assert(views(first@) =~= views(names@).take(SHOWN as int));
    let mut summary = join(first, ", ");
    push_str(&mut summary, ", …");
    summary
}

/// A finding.
pub open spec fn finding(kind: FindingKind, page: Option<usize>, detail: Seq<char>) -> Finding {
    Finding { kind, page, detail }
}

/// What is found of a restriction.
pub open spec fn restriction_findings(restriction: Option<RestrictionEvidence>) -> Seq<Finding> {
    match restriction {
        Some(found) => if found.security_revision > 0 {
            seq![
                finding(
                    FindingKind::Restricted,
                    None,
                    "this document is encrypted (security handler revision "@ + decimal_text(
                        found.security_revision as nat,
                    ) + ", permission bits 0x"@ + hexadecimal_text(found.permissions as nat)
                        + "); it opened, so it renders normally, but a document that needs a password to render will fail on stage rather than here"@,
                ),
            ]
        } else {
            Seq::empty()
        },
        None => Seq::empty(),
    }
}

/// What is found of a form.
pub open spec fn form_findings(form: FormType) -> Seq<Finding> {
    match form {
        FormType::Xfa => seq![
            finding(
                FindingKind::Xfa,
                None,
                "this is an XFA form, not a page-based document; pulpit shows the static fallback pages the producer embedded, which may say only \"please open in Adobe Reader\""@,
            ),
        ],
        FormType::AcroForm => seq![
            finding(
                FindingKind::FormFields,
                None,
                "this document declares form fields; they are drawn exactly as they were last saved and cannot be typed into, ticked or reset during the talk"@,
            ),
        ],
        FormType::NoForm => Seq::empty(),
    }
}

/// What is found of the scripts of a document.
pub open spec fn script_findings(names: Seq<Seq<char>>) -> Seq<Finding> {
    if names.len() == 0 {
        Seq::empty()
    } else {
        seq![
            finding(
                FindingKind::DocumentJavaScript,
                None,
                decimal_text(names.len()) + " document-level script(s) ("@ + summarised(names)
                    + ") would run on open in a PDF reader; pulpit never executes them, so anything they were meant to set up — field values, a starting page, an auto-advance — will not happen"@,
            ),
        ]
    }
}

/// What is found of transitions whose page is not known.
pub open spec fn style_findings(styles: Seq<Seq<char>>) -> Seq<Finding> {
    if styles.len() == 0 {
        Seq::empty()
    } else {
        seq![
            finding(
                FindingKind::PageTransition,
                None,
                "this document declares page transitions ("@ + summarised(styles)
                    + "); pulpit cuts between slides and will play none of them"@,
            ),
        ]
    }
}

/// What is found of the document as a whole.
pub open spec fn document_findings(evidence: DocumentEvidence) -> Seq<Finding> {
    restriction_findings(evidence.restriction) + form_findings(evidence.form_type)
        + script_findings(views(evidence.document_javascript@)) + style_findings(
        views(evidence.transition_styles@),
    )
}

/// What is not done about an action.
pub open spec fn action_detail(action: ActionKind) -> Option<Seq<char>> {
    match action {
        ActionKind::Launch => Some(
            "a link on this page asks to launch a file or program; pulpit never runs it and the click will do nothing"@,
        ),
        ActionKind::RemoteGoTo | ActionKind::EmbeddedGoTo => Some(
            "a link on this page jumps into another document; pulpit navigates only the deck that is open and the click will do nothing"@,
        ),
        ActionKind::Unrecognised => Some(
            "a link on this page carries an action pulpit does not perform, which is almost always JavaScript; the click will do nothing"@,
        ),
        _ => None,
    }
}

/// What is lost of an annotation that there is no player for.
pub open spec fn media_detail(subtype: AnnotationSubtype) -> Option<Seq<char>> {
    match subtype {
        AnnotationSubtype::Sound => Some(
            "this page embeds a sound annotation; pulpit has no audio player for it and the page will be silent"@,
        ),
        AnnotationSubtype::ThreeD => Some(
            "this page embeds 3-D artwork; pulpit shows its flat poster image and it cannot be rotated"@,
        ),
        AnnotationSubtype::RichMedia => Some(
            "this page embeds rich media (Flash-era content); pulpit shows its poster image and nothing will play"@,
        ),
        _ => None,
    }
}

/// One finding where there is something to say, and none where there is not.
pub open spec fn at_most_one(kind: FindingKind, page: usize, detail: Option<Seq<char>>) -> Seq<
    Finding,
> {
    match detail {
        Some(text) => seq![finding(kind, Some(page), text)],
        None => Seq::empty(),
    }
}

/// What is found of one annotation. A form field has no action of its own.
pub open spec fn annotation_findings(page: usize, annotation: AnnotationEvidence) -> Seq<Finding> {
    let scripted = if annotation.has_additional_actions {
        seq![
            finding(
                FindingKind::AnnotationJavaScript,
                Some(page),
                "an annotation on this page carries scripted actions (run on click, focus or change in a reader); pulpit ignores them and the annotation stays as drawn"@,
            ),
        ]
    } else {
        Seq::empty()
    };
    if annotation.subtype == AnnotationSubtype::Widget {
        scripted
    } else {
        scripted + at_most_one(
            FindingKind::UnplayableMedia,
            page,
            media_detail(annotation.subtype),
        ) + at_most_one(
            FindingKind::UnsupportedAction,
            page,
            action_detail(annotation.action),
        )
    }
}

/// What is found of the first `n` annotations of a page.
pub open spec fn annotations_findings(
    page: usize,
    annotations: Seq<AnnotationEvidence>,
    n: nat,
) -> Seq<Finding>
    decreases n,
{
    if n == 0 {
        Seq::empty()
    } else {
        annotations_findings(page, annotations, (n - 1) as nat) + annotation_findings(
            page,
            annotations[n - 1],
        )
    }
}

/// What is found of the transition of a page.
pub open spec fn transition_findings(page: PageEvidence) -> Seq<Finding> {
    match page.transition {
        Some(style) => seq![
            finding(
                FindingKind::PageTransition,
                Some(page.page),
                "this page declares a "@ + lowercase(style@)
                    + " transition; pulpit will cut to it instead"@,
            ),
        ],
        None => Seq::empty(),
    }
}

/// What is found on the first `n` pages.
pub open spec fn pages_findings(pages: Seq<PageEvidence>, n: nat) -> Seq<Finding>
    decreases n,
{
    if n == 0 {
        Seq::empty()
    } else {
        let page = pages[n - 1];
        pages_findings(pages, (n - 1) as nat) + transition_findings(page) + annotations_findings(
            page.page,
            page.annotations@,
            page.annotations@.len(),
        )
    }
}

/// How many of the first `n` annotations are form fields.
pub open spec fn widgets_among(annotations: Seq<AnnotationEvidence>, n: nat) -> nat
    decreases n,
{
    if n == 0 {
        0
    } else if annotations[n - 1].subtype == AnnotationSubtype::Widget {
        widgets_among(annotations, (n - 1) as nat) + 1
    } else {
        widgets_among(annotations, (n - 1) as nat)
    }
}

/// The page of each form field on the first `n` pages.
pub open spec fn widget_pages(pages: Seq<PageEvidence>, n: nat) -> Seq<usize>
    decreases n,
{
    if n == 0 {
        Seq::empty()
    } else {
        let page = pages[n - 1];
        let count = widgets_among(page.annotations@, page.annotations@.len());
        widget_pages(pages, (n - 1) as nat) + Seq::new(count, |i: int| page.page)
    }
}

/// What is found of form fields that the document does not declare as a form.
pub open spec fn widget_findings(form: FormType, pages: Seq<usize>) -> Seq<Finding> {
    if pages.len() > 0 && form == FormType::NoForm {
        seq![
            finding(
                FindingKind::FormFields,
                None,
                decimal_text(pages.len()) + " form field(s) on "@ + decimal_text(
                    pages.to_set().len(),
                ) + " page(s) are drawn as last saved and cannot be interacted with"@,
            ),
        ]
    } else {
        Seq::empty()
    }
}

/// How many findings of a kind there are.
pub open spec fn count_of(findings: Seq<Finding>, kind: FindingKind) -> nat {
    findings_of_kind(findings, kind, findings.len()).len()
}

/// The findings, among the first `n`, that are kept: the first few of each
/// kind.
pub open spec fn kept(findings: Seq<Finding>, n: nat) -> Seq<Finding>
    decreases n,
{
    if n == 0 {
        Seq::empty()
    } else {
        let before = kept(findings, (n - 1) as nat);
        if count_of(before, findings[n - 1].kind) < MAX_FINDINGS_PER_KIND {
            before.push(findings[n - 1])
        } else {
            before
        }
    }
}

/// Counts, by kind, with one more of a kind.
pub open spec fn counted(counts: Seq<(FindingKind, usize)>, kind: FindingKind, from: int) -> Seq<
    (FindingKind, usize),
>
    decreases counts.len() - from,
{
    if from >= counts.len() {
        counts.push((kind, 1usize))
    } else if counts[from].0 == kind {
        counts.update(from, (kind, (counts[from].1 + 1) as usize))
    } else {
        counted(counts, kind, from + 1)
    }
}

/// How many findings of each kind, among the first `n`, are not kept. Kinds are
/// in the order in which they went over.
pub open spec fn dropped(findings: Seq<Finding>, n: nat) -> Seq<(FindingKind, usize)>
    decreases n,
{
    if n == 0 {
        Seq::empty()
    } else {
        let before = dropped(findings, (n - 1) as nat);
        if count_of(kept(findings, (n - 1) as nat), findings[n - 1].kind)
            < MAX_FINDINGS_PER_KIND {
            before
        } else {
            counted(before, findings[n - 1].kind, 0)
        }
    }
}

/// One finding for each of the first `n` counts.
pub open spec fn summaries(counts: Seq<(FindingKind, usize)>, n: nat) -> Seq<Finding>
    decreases n,
{
    if n == 0 {
        Seq::empty()
    } else {
        summaries(counts, (n - 1) as nat).push(
            finding(
                counts[n - 1].0,
                None,
                decimal_text(counts[n - 1].1 as nat) + " further page(s) are affected by "@
                    + counts[n - 1].0.noun() + " in the same way"@,
            ),
        )
    }
}

/// Findings, of which only the first few of each kind are kept and the rest are
/// counted.
pub open spec fn compressed(findings: Seq<Finding>) -> Seq<Finding> {
    let counts = dropped(findings, findings.len());
    kept(findings, findings.len()) + summaries(counts, counts.len())
}

/// Everything that is found.
pub open spec fn all_findings(evidence: DocumentEvidence) -> Seq<Finding> {
    document_findings(evidence) + pages_findings(evidence.pages@, evidence.pages@.len())
        + widget_findings(
        evidence.form_type,
        widget_pages(evidence.pages@, evidence.pages@.len()),
    )
}

fn push_finding(
    findings: &mut Vec<CapabilityFinding>,
    kind: FindingKind,
    page: Option<usize>,
    detail: String,
)
    ensures
        finding_views(final(findings)@) == finding_views(old(findings)@).push(
            finding(kind, page, detail@),
        ),
{
    let ghost before = finding_views(findings@);
    findings.push(CapabilityFinding { kind, page, detail });
    assert(finding_views(findings@) =~= before.push(finding(kind, page, detail@)));
}

fn find_in_document(evidence: &DocumentEvidence) -> (findings: Vec<CapabilityFinding>)
    ensures
        finding_views(findings@) == document_findings(*evidence),
{
    let mut findings: Vec<CapabilityFinding> = Vec::new();
    assert(finding_views(findings@) =~= Seq::empty());
    if let Some(restriction) = &evidence.restriction {
        if restriction.security_revision > 0 {
            let mut detail = owned("this document is encrypted (security handler revision ");
            push_decimal(&mut detail, restriction.security_revision as u64);
            push_str(&mut detail, ", permission bits 0x");
            push_hexadecimal(&mut detail, restriction.permissions as u64);
            push_str(
                &mut detail,
                "); it opened, so it renders normally, but a document that needs a password to render will fail on stage rather than here",
            );
            push_finding(&mut findings, FindingKind::Restricted, None, detail);
        }
    }
    assert(finding_views(findings@) =~= restriction_findings(evidence.restriction));
    let ghost first = finding_views(findings@);
    match evidence.form_type {
        FormType::Xfa => push_finding(
            &mut findings,
            FindingKind::Xfa,
            None,
            owned(
                "this is an XFA form, not a page-based document; pulpit shows the static fallback pages the producer embedded, which may say only \"please open in Adobe Reader\"",
            ),
        ),
        FormType::AcroForm => push_finding(
            &mut findings,
            FindingKind::FormFields,
            None,
            owned(
                "this document declares form fields; they are drawn exactly as they were last saved and cannot be typed into, ticked or reset during the talk",
            ),
        ),
        FormType::NoForm => {},
    }
    assert(finding_views(findings@) =~= first + form_findings(evidence.form_type));
    let ghost second = finding_views(findings@);
    if evidence.document_javascript.len() > 0 {
        let mut detail = crate::text::decimal_string(evidence.document_javascript.len() as u64);
        push_str(&mut detail, " document-level script(s) (");
        let names = summarise_names(evidence.document_javascript.as_slice());
        push_str(&mut detail, names.as_str());
        push_str(
            &mut detail,
            ") would run on open in a PDF reader; pulpit never executes them, so anything they were meant to set up — field values, a starting page, an auto-advance — will not happen",
        );
        push_finding(&mut findings, FindingKind::DocumentJavaScript, None, detail);
    }
    assert(finding_views(findings@) =~= second + script_findings(
        views(evidence.document_javascript@),
    ));
    let ghost third = finding_views(findings@);
    if evidence.transition_styles.len() > 0 {
        let mut detail = owned("this document declares page transitions (");
        let names = summarise_names(evidence.transition_styles.as_slice());
        push_str(&mut detail, names.as_str());
        push_str(&mut detail, "); pulpit cuts between slides and will play none of them");
        push_finding(&mut findings, FindingKind::PageTransition, None, detail);
    }
    assert(finding_views(findings@) =~= third + style_findings(
        views(evidence.transition_styles@),
    ));
    findings
}

/// What is not done about the action of an annotation, if anything is not.
fn unsupported_action_detail(annotation: &AnnotationEvidence) -> (detail: Option<String>)
    ensures
        match detail {
            Some(text) => action_detail(annotation.action) == Some(text@),
            None => action_detail(annotation.action) is None,
        },
{
    match annotation.action {
        ActionKind::NoAction | ActionKind::GoTo | ActionKind::Uri | ActionKind::Rendition => None,
        ActionKind::Launch => Some(
            owned(
                "a link on this page asks to launch a file or program; pulpit never runs it and the click will do nothing",
            ),
        ),
        ActionKind::RemoteGoTo | ActionKind::EmbeddedGoTo => Some(
            owned(
                "a link on this page jumps into another document; pulpit navigates only the deck that is open and the click will do nothing",
            ),
        ),
        ActionKind::Unrecognised => Some(
            owned(
                "a link on this page carries an action pulpit does not perform, which is almost always JavaScript; the click will do nothing",
            ),
        ),
    }
}

fn find_in_annotation(
    findings: &mut Vec<CapabilityFinding>,
    page: usize,
    annotation: &AnnotationEvidence,
)
    ensures
        finding_views(final(findings)@) == finding_views(old(findings)@) + annotation_findings(
            page,
            *annotation,
        ),
{
    let ghost before = finding_views(findings@);
    if annotation.has_additional_actions {
        push_finding(
            findings,
            FindingKind::AnnotationJavaScript,
            Some(page),
            owned(
                "an annotation on this page carries scripted actions (run on click, focus or change in a reader); pulpit ignores them and the annotation stays as drawn",
            ),
        );
    }
    match annotation.subtype {
        AnnotationSubtype::Widget => {
            assert(finding_views(findings@) =~= before + annotation_findings(page, *annotation));
            return;
        },
        AnnotationSubtype::Sound => push_finding(
            findings,
            FindingKind::UnplayableMedia,
            Some(page),
            owned(
                "this page embeds a sound annotation; pulpit has no audio player for it and the page will be silent",
            ),
        ),
        AnnotationSubtype::ThreeD => push_finding(
            findings,
            FindingKind::UnplayableMedia,
            Some(page),
            owned(
                "this page embeds 3-D artwork; pulpit shows its flat poster image and it cannot be rotated",
            ),
        ),
        AnnotationSubtype::RichMedia => push_finding(
            findings,
            FindingKind::UnplayableMedia,
            Some(page),
            owned(
                "this page embeds rich media (Flash-era content); pulpit shows its poster image and nothing will play",
            ),
        ),
        AnnotationSubtype::Screen
        | AnnotationSubtype::Movie
        | AnnotationSubtype::Link
        | AnnotationSubtype::Other => {},
    }
    if let Some(detail) = unsupported_action_detail(annotation) {
        push_finding(findings, FindingKind::UnsupportedAction, Some(page), detail);
    }
    assert(finding_views(findings@) =~= before + annotation_findings(page, *annotation));
}

fn find_on_page(
    findings: &mut Vec<CapabilityFinding>,
    widgets: &mut Vec<usize>,
    page: &PageEvidence,
)
    ensures
        finding_views(final(findings)@) == finding_views(old(findings)@) + transition_findings(
            *page,
        ) + annotations_findings(page.page, page.annotations@, page.annotations@.len()),
        final(widgets)@ == old(widgets)@ + Seq::new(
            widgets_among(page.annotations@, page.annotations@.len()),
            |i: int| page.page,
        ),
{
    let ghost before = finding_views(findings@);
    let ghost held = widgets@;
    if let Some(style) = &page.transition {
        let mut detail = owned("this page declares a ");
        let lower = to_lowercase(style.as_str());
        push_str(&mut detail, lower.as_str());
        push_str(&mut detail, " transition; pulpit will cut to it instead");
        push_finding(findings, FindingKind::PageTransition, Some(page.page), detail);
    }
    let ghost start = before + transition_findings(*page);
    assert(finding_views(findings@) =~= start);
    assert(start + Seq::<Finding>::empty() =~= start);
    let mut i: usize = 0;
    while i < page.annotations.len()
        invariant
            i <= page.annotations@.len(),
            finding_views(findings@) == start + annotations_findings(
                page.page,
                page.annotations@,
                i as nat,
            ),
            widgets@ =~= held + Seq::new(
                widgets_among(page.annotations@, i as nat),
                |j: int| page.page,
            ),
        decreases page.annotations@.len() - i,
    {
        let ghost so_far = finding_views(findings@);
        find_in_annotation(findings, page.page, &page.annotations[i]);
        if page.annotations[i].subtype == AnnotationSubtype::Widget {
            widgets.push(page.page);
        }
        i += 1;
        assert(finding_views(findings@) =~= start + annotations_findings(
            page.page,
            page.annotations@,
            i as nat,
        ));
    }
}

/// How many different pages there are in a list.
fn distinct(pages: &[usize]) -> (count: usize)
    ensures
        count == pages@.to_set().len(),
{
    let mut count: usize = 0;
    let mut i: usize = 0;
    assert(pages@.take(0).to_set() =~= Set::empty());
    while i < pages.len()
        invariant
            i <= pages@.len(),
            count <= i,
            count == pages@.take(i as int).to_set().len(),
        decreases pages@.len() - i,
    {
        let ghost before = pages@.take(i as int);
        let ghost after = pages@.take(i + 1);
        let mut j: usize = 0;
        while j < i && pages[j] != pages[i]
            invariant
                j <= i < pages@.len(),
                forall|k: int| 0 <= k < j ==> #[trigger] pages@[k] != pages@[i as int],
            decreases i - j,
        {
            j += 1;
        }
        proof {
            before.lemma_cardinality_of_set();
            assert(after =~= before.push(pages@[i as int]));
            assert(after.to_set() =~= before.to_set().insert(pages@[i as int])) by {
                assert forall|x: usize| after.to_set().contains(x) == before.to_set().insert(
                    pages@[i as int],
                ).contains(x) by {
                    if after.contains(x) {
                        let k = choose|k: int| 0 <= k < after.len() && after[k] == x;
                        if k < before.len() {
                            assert(before[k] == x);
                        }
                    }
                    if before.contains(x) {
                        let k = choose|k: int| 0 <= k < before.len() && before[k] == x;
                        assert(after[k] == x);
                    }
                    assert(after[i as int] == pages@[i as int]);
                }
            }
            if j < i {
                assert(before[j as int] == pages@[i as int]);
                assert(before.to_set().insert(pages@[i as int]) =~= before.to_set());
            } else {
                assert(!before.contains(pages@[i as int])) by {
                    if before.contains(pages@[i as int]) {
                        let k = choose|k: int|
                            0 <= k < before.len() && before[k] == pages@[i as int];
                        assert(pages@[k] == pages@[i as int]);
                    }
                }
            }
        }
        if j == i {
            count += 1;
        }
        i += 1;
    }
    assert(pages@.take(i as int) =~= pages@);
    count
}

fn count_kind(findings: &[CapabilityFinding], kind: FindingKind) -> (count: usize)
    ensures
        count == count_of(finding_views(findings@), kind),
{
    let ghost all = finding_views(findings@);
    let mut count: usize = 0;
    let mut i: usize = 0;
    while i < findings.len()
        invariant
            i <= findings@.len(),
            all == finding_views(findings@),
            count <= i,
            count == findings_of_kind(all, kind, i as nat).len(),
        decreases findings@.len() - i,
    {
        assert(all[i as int] == findings@[i as int]@);
        if findings[i].kind == kind {
            count += 1;
        }
        i += 1;
    }
    count
}

proof fn lemma_counted(counts: Seq<(FindingKind, usize)>, kind: FindingKind, from: int, most: nat)
    requires
        0 <= from <= counts.len(),
        most < usize::MAX,
        forall|i: int| 0 <= i < counts.len() ==> (#[trigger] counts[i]).1 <= most,
    ensures
        forall|i: int|
            0 <= i < counted(counts, kind, from).len() ==> (#[trigger] counted(
                counts,
                kind,
                from,
            )[i]).1 <= most + 1,
    decreases counts.len() - from,
{
    let after = counted(counts, kind, from);
    if from >= counts.len() {
        assert(after == counts.push((kind, 1usize)));
    } else if counts[from].0 != kind {
        lemma_counted(counts, kind, from + 1, most);
        assert(after == counted(counts, kind, from + 1));
    } else {
        let more = (counts[from].1 + 1) as usize;
        assert(counts[from].1 <= most);
        assert(after == counts.update(from, (kind, more)));
    }
    assert forall|i: int| 0 <= i < after.len() implies (#[trigger] after[i]).1 <= most + 1 by {
        if from < counts.len() && counts[from].0 != kind {
            assert(counted(counts, kind, from + 1)[i].1 <= most + 1);
        } else if i < counts.len() {
            assert(counts[i].1 <= most);
        }
    }
}

fn count_one_more(counts: &mut Vec<(FindingKind, usize)>, kind: FindingKind)
    requires
        forall|i: int| 0 <= i < old(counts)@.len() ==> (#[trigger] old(counts)@[i]).1 < usize::MAX,
    ensures
        final(counts)@ == counted(old(counts)@, kind, 0),
{
    let ghost before = counts@;
    let mut i: usize = 0;
    while i < counts.len() && counts[i].0 != kind
        invariant
            i <= counts@.len(),
            counts@ == before,
            counted(before, kind, i as int) == counted(before, kind, 0),
        decreases counts@.len() - i,
    {
        i += 1;
    }
    if i < counts.len() {
        let more: usize = counts[i].1 + 1;
        counts.set(i, (kind, more));
    } else {
        counts.push((kind, 1));
    }
}

/// Keeps the first few findings of each kind, and says in one sentence how many
/// more there were.
fn compress(findings: Vec<CapabilityFinding>) -> (short: Vec<CapabilityFinding>)
    ensures
        finding_views(short@) == compressed(finding_views(findings@)),
{
    let ghost all = finding_views(findings@);
    let count: usize = findings.len();
    let mut rest = findings;
    let mut short: Vec<CapabilityFinding> = Vec::new();
    let mut counts: Vec<(FindingKind, usize)> = Vec::new();
    assert(finding_views(short@) =~= Seq::empty());
    let mut i: usize = 0;
    while i < count
        invariant
            i <= count,
            count == all.len(),
            rest@.len() == count - i,
            finding_views(rest@) == all.skip(i as int),
            finding_views(short@) == kept(all, i as nat),
            counts@ == dropped(all, i as nat),
            forall|k: int| 0 <= k < counts@.len() ==> (#[trigger] counts@[k]).1 <= i,
        decreases count - i,
    {
        let ghost left = finding_views(rest@);
        let ghost held = rest@;
        let ghost before = finding_views(short@);
        let first = rest.remove(0);
        let ghost value = first@;
        proof {
            assert(value == left[0]);
            assert forall|j: int| 0 <= j < rest@.len() implies #[trigger] finding_views(rest@)[j]
                == all[i + 1 + j] by {
                assert(rest@[j] == held[j + 1]);
                assert(left[j + 1] == all.skip(i as int)[j + 1]);
            }
            assert(finding_views(rest@) =~= all.skip(i + 1));
        }
        let kind = first.kind;
        if count_kind(short.as_slice(), kind) < MAX_FINDINGS_PER_KIND {
            short.push(first);
            assert(finding_views(short@) =~= before.push(value));
        } else {
            proof {
                lemma_counted(counts@, kind, 0, i as nat);
            }
            count_one_more(&mut counts, kind);
        }
        i += 1;
    }
    let ghost first_ones = finding_views(short@);
    assert(first_ones + Seq::<Finding>::empty() =~= first_ones);
    let mut k: usize = 0;
    while k < counts.len()
        invariant
            k <= counts@.len(),
            finding_views(short@) == first_ones + summaries(counts@, k as nat),
        decreases counts@.len() - k,
    {
        let (kind, more) = counts[k];
        let mut detail = crate::text::decimal_string(more as u64);
        push_str(&mut detail, " further page(s) are affected by ");
        push_str(&mut detail, kind.label());
        push_str(&mut detail, " in the same way");
        push_finding(&mut short, kind, None, detail);
        k += 1;
        assert(finding_views(short@) =~= first_ones + summaries(counts@, k as nat));
    }
    short
}

proof fn lemma_kept_counts(findings: Seq<Finding>, n: nat, kind: FindingKind)
    requires
        n <= findings.len(),
    ensures
        count_of(kept(findings, n), kind) <= MAX_FINDINGS_PER_KIND,
    decreases n,
{
    if n > 0 {
        lemma_kept_counts(findings, (n - 1) as nat, kind);
        let before = kept(findings, (n - 1) as nat);
        if count_of(before, findings[n - 1].kind) < MAX_FINDINGS_PER_KIND {
            let after = before.push(findings[n - 1]);
            lemma_prefix_counts(before, after, kind, before.len());
        }
    }
}

proof fn lemma_prefix_counts(shorter: Seq<Finding>, longer: Seq<Finding>, kind: FindingKind, n: nat)
    requires
        n <= shorter.len() <= longer.len(),
        forall|i: int| 0 <= i < n ==> shorter[i] == longer[i],
    ensures
        findings_of_kind(shorter, kind, n) == findings_of_kind(longer, kind, n),
    decreases n,
{
    if n > 0 {
        lemma_prefix_counts(shorter, longer, kind, (n - 1) as nat);
    }
}

/// However many findings there are, no more than a few of a kind are kept.
pub proof fn law_few_findings_of_a_kind_are_kept(findings: Seq<Finding>, kind: FindingKind)
    ensures
        count_of(kept(findings, findings.len()), kind) <= MAX_FINDINGS_PER_KIND,
{
    lemma_kept_counts(findings, findings.len(), kind);
}

/// Is there a finding of this kind among the first `n`?
pub open spec fn reports(findings: Seq<Finding>, kind: FindingKind, n: nat) -> bool {
    exists|i: int| 0 <= i < n && (#[trigger] findings[i]).kind == kind
}

/// Does an annotation show what is reported under this kind? A form field has no
/// action of its own, and is no medium.
pub open spec fn annotation_shows(annotation: AnnotationEvidence, kind: FindingKind) -> bool {
    match kind {
        FindingKind::AnnotationJavaScript => annotation.has_additional_actions,
        FindingKind::UnplayableMedia => annotation.subtype != AnnotationSubtype::Widget
            && media_detail(annotation.subtype) is Some,
        FindingKind::UnsupportedAction => annotation.subtype != AnnotationSubtype::Widget
            && action_detail(annotation.action) is Some,
        _ => false,
    }
}

/// Does one of the first `n` annotations show it?
pub open spec fn annotations_show(
    annotations: Seq<AnnotationEvidence>,
    kind: FindingKind,
    n: nat,
) -> bool {
    exists|i: int| 0 <= i < n && annotation_shows(#[trigger] annotations[i], kind)
}

/// Does a page show what is reported under this kind?
pub open spec fn page_shows(page: PageEvidence, kind: FindingKind) -> bool {
    ||| kind == FindingKind::PageTransition && page.transition is Some
    ||| annotations_show(page.annotations@, kind, page.annotations@.len())
}

/// Has a page a form field?
pub open spec fn has_widget(page: PageEvidence) -> bool {
    widgets_among(page.annotations@, page.annotations@.len()) > 0
}

/// Does the evidence show what is reported under this kind?
pub open spec fn shows(evidence: DocumentEvidence, kind: FindingKind) -> bool {
    ||| exists|i: int|
        0 <= i < evidence.pages@.len() && page_shows(#[trigger] evidence.pages@[i], kind)
    ||| match kind {
        FindingKind::Restricted => evidence.restriction matches Some(found)
            && found.security_revision > 0,
        FindingKind::Xfa => evidence.form_type == FormType::Xfa,
        FindingKind::FormFields => evidence.form_type == FormType::AcroForm || (
        evidence.form_type == FormType::NoForm && exists|i: int|
            0 <= i < evidence.pages@.len() && has_widget(#[trigger] evidence.pages@[i])),
        FindingKind::DocumentJavaScript => evidence.document_javascript@.len() > 0,
        FindingKind::PageTransition => evidence.transition_styles@.len() > 0,
        _ => false,
    }
}

proof fn lemma_reports_join(first: Seq<Finding>, second: Seq<Finding>, kind: FindingKind)
    ensures
        reports(first + second, kind, (first + second).len()) <==> (reports(
            first,
            kind,
            first.len(),
        ) || reports(second, kind, second.len())),
{
    let both = first + second;
    if reports(both, kind, both.len()) {
        let i = choose|i: int| 0 <= i < both.len() && (#[trigger] both[i]).kind == kind;
        if i < first.len() {
            assert(first[i].kind == kind);
        } else {
            assert(second[i - first.len()].kind == kind);
        }
    }
    if reports(first, kind, first.len()) {
        let i = choose|i: int| 0 <= i < first.len() && (#[trigger] first[i]).kind == kind;
        assert(both[i].kind == kind);
    }
    if reports(second, kind, second.len()) {
        let i = choose|i: int| 0 <= i < second.len() && (#[trigger] second[i]).kind == kind;
        assert(both[i + first.len()].kind == kind);
    }
}

proof fn lemma_one_finding(findings: Seq<Finding>, kind: FindingKind)
    requires
        findings.len() <= 1,
    ensures
        reports(findings, kind, findings.len()) <==> (findings.len() == 1 && findings[0].kind
            == kind),
{
}

proof fn lemma_annotation_shows(page: usize, annotation: AnnotationEvidence, kind: FindingKind)
    ensures
        reports(
            annotation_findings(page, annotation),
            kind,
            annotation_findings(page, annotation).len(),
        ) <==> annotation_shows(annotation, kind),
{
    let all = annotation_findings(page, annotation);
    let media = at_most_one(FindingKind::UnplayableMedia, page, media_detail(annotation.subtype));
    let action = at_most_one(
        FindingKind::UnsupportedAction,
        page,
        action_detail(annotation.action),
    );
    let scripted = if annotation.subtype == AnnotationSubtype::Widget {
        all
    } else {
        all.take(all.len() - media.len() - action.len())
    };
    if annotation.subtype != AnnotationSubtype::Widget {
        assert(all =~= scripted + media + action);
        lemma_reports_join(scripted + media, action, kind);
        lemma_reports_join(scripted, media, kind);
        lemma_one_finding(media, kind);
        lemma_one_finding(action, kind);
    }
    lemma_one_finding(scripted, kind);
}

proof fn lemma_annotations_show(
    page: usize,
    annotations: Seq<AnnotationEvidence>,
    kind: FindingKind,
    n: nat,
)
    requires
        n <= annotations.len(),
    ensures
        reports(
            annotations_findings(page, annotations, n),
            kind,
            annotations_findings(page, annotations, n).len(),
        ) <==> annotations_show(annotations, kind, n),
    decreases n,
{
    if n > 0 {
        let before = (n - 1) as nat;
        lemma_annotations_show(page, annotations, kind, before);
        lemma_annotation_shows(page, annotations[n - 1], kind);
        lemma_reports_join(
            annotations_findings(page, annotations, before),
            annotation_findings(page, annotations[n - 1]),
            kind,
        );
        if annotations_show(annotations, kind, before) {
            let i = choose|i: int|
                0 <= i < before && annotation_shows(#[trigger] annotations[i], kind);
            assert(annotation_shows(annotations[i], kind));
        }
    }
}

proof fn lemma_pages_show(pages: Seq<PageEvidence>, kind: FindingKind, n: nat)
    requires
        n <= pages.len(),
    ensures
        reports(pages_findings(pages, n), kind, pages_findings(pages, n).len()) <==> exists|
            i: int,
        | 0 <= i < n && page_shows(#[trigger] pages[i], kind),
    decreases n,
{
    if n > 0 {
        let before = (n - 1) as nat;
        let page = pages[n - 1];
        let first = pages_findings(pages, before);
        let moved = transition_findings(page);
        let rest = annotations_findings(page.page, page.annotations@, page.annotations@.len());
        lemma_pages_show(pages, kind, before);
        lemma_annotations_show(page.page, page.annotations@, kind, page.annotations@.len());
        lemma_reports_join(first + moved, rest, kind);
        lemma_reports_join(first, moved, kind);
        lemma_one_finding(moved, kind);
        if exists|i: int| 0 <= i < before && page_shows(#[trigger] pages[i], kind) {
            let i = choose|i: int| 0 <= i < before && page_shows(#[trigger] pages[i], kind);
            assert(page_shows(pages[i], kind));
        }
    }
}

proof fn lemma_widget_pages(pages: Seq<PageEvidence>, n: nat)
    requires
        n <= pages.len(),
    ensures
        widget_pages(pages, n).len() > 0 <==> exists|i: int|
            0 <= i < n && has_widget(#[trigger] pages[i]),
    decreases n,
{
    if n > 0 {
        let before = (n - 1) as nat;
        lemma_widget_pages(pages, before);
        if exists|i: int| 0 <= i < before && has_widget(#[trigger] pages[i]) {
            let i = choose|i: int| 0 <= i < before && has_widget(#[trigger] pages[i]);
            assert(has_widget(pages[i]));
        }
    }
}

proof fn lemma_found_of_kind(findings: Seq<Finding>, kind: FindingKind, n: nat)
    requires
        n <= findings.len(),
    ensures
        findings_of_kind(findings, kind, n).len() > 0 ==> reports(findings, kind, n),
    decreases n,
{
    if n > 0 {
        lemma_found_of_kind(findings, kind, (n - 1) as nat);
        if findings[n - 1].kind != kind && reports(findings, kind, (n - 1) as nat) {
            let i = choose|i: int| 0 <= i < n - 1 && (#[trigger] findings[i]).kind == kind;
            assert(findings[i].kind == kind);
        }
    }
}

proof fn lemma_kept_reports(findings: Seq<Finding>, kind: FindingKind, n: nat)
    requires
        n <= findings.len(),
    ensures
        reports(kept(findings, n), kind, kept(findings, n).len()) <==> reports(findings, kind, n),
    decreases n,
{
    if n > 0 {
        let before = (n - 1) as nat;
        let shorter = kept(findings, before);
        lemma_kept_reports(findings, kind, before);
        if reports(findings, kind, before) {
            let i = choose|i: int| 0 <= i < before && (#[trigger] findings[i]).kind == kind;
            assert(findings[i].kind == kind);
        }
        if count_of(shorter, findings[n - 1].kind) < MAX_FINDINGS_PER_KIND {
            let one = seq![findings[n - 1]];
            assert(kept(findings, n) =~= shorter + one);
            lemma_reports_join(shorter, one, kind);
            lemma_one_finding(one, kind);
        } else {
            lemma_found_of_kind(shorter, findings[n - 1].kind, shorter.len());
        }
    }
}

proof fn lemma_counted_kinds(counts: Seq<(FindingKind, usize)>, kind: FindingKind, from: int)
    requires
        0 <= from <= counts.len(),
    ensures
        forall|i: int|
            0 <= i < counted(counts, kind, from).len() ==> (#[trigger] counted(
                counts,
                kind,
                from,
            )[i]).0 == kind || (i < counts.len() && counted(counts, kind, from)[i].0
                == counts[i].0),
    decreases counts.len() - from,
{
    if from < counts.len() && counts[from].0 != kind {
        lemma_counted_kinds(counts, kind, from + 1);
    }
}

proof fn lemma_dropped_reports(findings: Seq<Finding>, n: nat)
    requires
        n <= findings.len(),
    ensures
        forall|i: int|
            0 <= i < dropped(findings, n).len() ==> reports(
                findings,
                (#[trigger] dropped(findings, n)[i]).0,
                n,
            ),
    decreases n,
{
    if n > 0 {
        let before = (n - 1) as nat;
        let counts = dropped(findings, before);
        lemma_dropped_reports(findings, before);
        lemma_counted_kinds(counts, findings[n - 1].kind, 0);
        assert forall|i: int| 0 <= i < dropped(findings, n).len() implies reports(
            findings,
            (#[trigger] dropped(findings, n)[i]).0,
            n,
        ) by {
            let kind = dropped(findings, n)[i].0;
            if kind == findings[n - 1].kind {
                assert(findings[n - 1].kind == kind);
            } else {
                assert(counts[i].0 == kind);
                assert(reports(findings, kind, before));
                let k = choose|k: int| 0 <= k < before && (#[trigger] findings[k]).kind == kind;
                assert(findings[k].kind == kind);
            }
        }
    }
}

proof fn lemma_summaries_kinds(counts: Seq<(FindingKind, usize)>, n: nat)
    requires
        n <= counts.len(),
    ensures
        summaries(counts, n).len() == n,
        forall|i: int|
            0 <= i < n ==> (#[trigger] summaries(counts, n)[i]).kind == counts[i].0,
    decreases n,
{
    if n > 0 {
        lemma_summaries_kinds(counts, (n - 1) as nat);
    }
}

/// Keeping only the first findings of a kind hides no kind, and counting the
/// rest makes none up.
pub proof fn law_compression_keeps_the_kinds(findings: Seq<Finding>, kind: FindingKind)
    ensures
        reports(compressed(findings), kind, compressed(findings).len()) <==> reports(
            findings,
            kind,
            findings.len(),
        ),
{
    let counts = dropped(findings, findings.len());
    let more = summaries(counts, counts.len());
    lemma_kept_reports(findings, kind, findings.len());
    lemma_reports_join(kept(findings, findings.len()), more, kind);
    lemma_dropped_reports(findings, findings.len());
    lemma_summaries_kinds(counts, counts.len());
    if reports(more, kind, more.len()) {
        let i = choose|i: int| 0 <= i < more.len() && (#[trigger] more[i]).kind == kind;
        assert(counts[i].0 == kind);
    }
}

/// A kind is reported exactly where the evidence shows it.
pub proof fn law_what_is_reported_is_shown(evidence: DocumentEvidence, kind: FindingKind)
    ensures
        reports(
            compressed(all_findings(evidence)),
            kind,
            compressed(all_findings(evidence)).len(),
        ) <==> shows(evidence, kind),
{
    let pages = evidence.pages@;
    let restricted = restriction_findings(evidence.restriction);
    let form = form_findings(evidence.form_type);
    let scripts = script_findings(views(evidence.document_javascript@));
    let styles = style_findings(views(evidence.transition_styles@));
    let found = pages_findings(pages, pages.len());
    let widgets = widget_findings(evidence.form_type, widget_pages(pages, pages.len()));
    law_compression_keeps_the_kinds(all_findings(evidence), kind);
    lemma_reports_join(document_findings(evidence) + found, widgets, kind);
    lemma_reports_join(document_findings(evidence), found, kind);
    lemma_reports_join(restricted + form + scripts, styles, kind);
    lemma_reports_join(restricted + form, scripts, kind);
    lemma_reports_join(restricted, form, kind);
    lemma_one_finding(restricted, kind);
    lemma_one_finding(form, kind);
    lemma_one_finding(scripts, kind);
    lemma_one_finding(styles, kind);
    lemma_one_finding(widgets, kind);
    lemma_pages_show(pages, kind, pages.len());
    lemma_widget_pages(pages, pages.len());
}

/// A document with nothing to report has no findings.
pub proof fn law_nothing_is_reported_without_evidence(evidence: DocumentEvidence)
    requires
        evidence.restriction is None,
        evidence.form_type == FormType::NoForm,
        evidence.document_javascript@.len() == 0,
        evidence.transition_styles@.len() == 0,
        forall|i: int|
            0 <= i < evidence.pages@.len() ==> {
                let page = #[trigger] evidence.pages@[i];
                &&& page.transition is None
                &&& page.annotations@.len() == 0
            },
    ensures
        compressed(all_findings(evidence)).len() == 0,
{
    lemma_blank_pages(evidence.pages@, evidence.pages@.len());
    assert(all_findings(evidence) =~= Seq::empty());
}

proof fn lemma_blank_pages(pages: Seq<PageEvidence>, n: nat)
    requires
        n <= pages.len(),
        forall|i: int|
            0 <= i < pages.len() ==> {
                let page = #[trigger] pages[i];
                &&& page.transition is None
                &&& page.annotations@.len() == 0
            },
    ensures
        pages_findings(pages, n).len() == 0,
        widget_pages(pages, n).len() == 0,
    decreases n,
{
    if n > 0 {
        lemma_blank_pages(pages, (n - 1) as nat);
        let page = pages[n - 1];
        assert(page.annotations@.len() == 0);
    }
}

proof fn lemma_styles(found: Seq<Seq<char>>, bytes: Seq<u8>, from: int, to: int, n: int)
    requires
        0 <= n <= STYLE_COUNT,
        found.no_duplicates(),
    ensures
        with_styles(found, bytes, from, to, n).no_duplicates(),
        forall|i: int|
            0 <= i < with_styles(found, bytes, from, to, n).len() ==> {
                let name = #[trigger] with_styles(found, bytes, from, to, n)[i];
                found.contains(name) || (is_style(name) && names_style(bytes, from, to, name))
            },
    decreases STYLE_COUNT - n,
{
    if n < STYLE_COUNT {
        assert(is_style(style(n)));
        if names_style(bytes, from, to, style(n)) && !found.contains(style(n)) {
            let more = found.push(style(n));
            assert forall|i: int, j: int|
                0 <= i < more.len() && 0 <= j < more.len() && i != j implies more[i] != more[j] by {
                if i < found.len() && j < found.len() {
                } else if i < found.len() {
                    assert(found.contains(found[i]));
                } else if j < found.len() {
                    assert(found.contains(found[j]));
                }
            }
            lemma_styles(more, bytes, from, to, n + 1);
            assert forall|i: int| 0 <= i < with_styles(found, bytes, from, to, n).len() implies {
                let name = #[trigger] with_styles(found, bytes, from, to, n)[i];
                found.contains(name) || (is_style(name) && names_style(bytes, from, to, name))
            } by {
                let name = with_styles(more, bytes, from, to, n + 1)[i];
                if more.contains(name) {
                    let k = choose|k: int| 0 <= k < more.len() && more[k] == name;
                    if k < found.len() {
                        assert(found[k] == name);
                    }
                }
            }
        } else {
            lemma_styles(found, bytes, from, to, n + 1);
        }
    } else {
        assert forall|i: int| 0 <= i < found.len() implies found.contains(
            #[trigger] with_styles(found, bytes, from, to, n)[i],
        ) by {
            assert(found.contains(found[i]));
        }
    }
}

/// Is this the name of a style?
pub open spec fn is_style(name: Seq<char>) -> bool {
    exists|n: int| 0 <= n < STYLE_COUNT && name == #[trigger] style(n)
}

/// Is this a style that a file names behind a marker?
pub open spec fn is_written(bytes: Seq<u8>, name: Seq<char>) -> bool {
    is_style(name) && exists|at: int| #[trigger]
        whole_at(bytes, utf8("/Trans"@), at) && names_style(bytes, at, window_end(bytes, at), name)
}

/// What a scan finds are styles of transitions, each once, and each of them
/// stands in the file as a whole name behind a marker: nothing is invented.
pub proof fn law_the_scan_finds_what_is_written(bytes: Seq<u8>)
    ensures
        styles_from(bytes, 0, Seq::empty()).no_duplicates(),
        forall|i: int|
            0 <= i < styles_from(bytes, 0, Seq::empty()).len() ==> is_written(
                bytes,
                #[trigger] styles_from(bytes, 0, Seq::empty())[i],
            ),
{
    lemma_styles_from(bytes, 0, Seq::empty());
}

proof fn lemma_styles_from(bytes: Seq<u8>, at: int, found: Seq<Seq<char>>)
    requires
        0 <= at,
        found.no_duplicates(),
        forall|i: int| 0 <= i < found.len() ==> is_written(bytes, #[trigger] found[i]),
    ensures
        styles_from(bytes, at, found).no_duplicates(),
        forall|i: int|
            0 <= i < styles_from(bytes, at, found).len() ==> is_written(
                bytes,
                #[trigger] styles_from(bytes, at, found)[i],
            ),
    decreases bytes.len() - at,
{
    if at + 6 <= bytes.len() {
        if whole_at(bytes, utf8("/Trans"@), at) {
            let end = window_end(bytes, at);
            let more = with_styles(found, bytes, at, end, 0);
            lemma_styles(found, bytes, at, end, 0);
            assert forall|i: int| 0 <= i < more.len() implies is_written(
                bytes,
                #[trigger] more[i],
            ) by {
                if found.contains(more[i]) {
                    let k = choose|k: int| 0 <= k < found.len() && found[k] == more[i];
                    assert(is_written(bytes, found[k]));
                }
            }
            lemma_styles_from(bytes, at + 6, more);
        } else {
            lemma_styles_from(bytes, at + 1, found);
        }
    }
}

/// Turns evidence into findings.
pub fn analyse(evidence: &DocumentEvidence) -> (capabilities: DocumentCapabilities)
    ensures
        finding_views(capabilities.findings@) == compressed(all_findings(*evidence)),
{
    let mut findings = find_in_document(evidence);
    let ghost start = finding_views(findings@);
    let mut widgets: Vec<usize> = Vec::new();
    assert(start + Seq::<Finding>::empty() =~= start);
    let mut i: usize = 0;
    while i < evidence.pages.len()
        invariant
            i <= evidence.pages@.len(),
            start == document_findings(*evidence),
            finding_views(findings@) == start + pages_findings(evidence.pages@, i as nat),
            widgets@ == widget_pages(evidence.pages@, i as nat),
        decreases evidence.pages@.len() - i,
    {
        let ghost held = widgets@;
        find_on_page(&mut findings, &mut widgets, &evidence.pages[i]);
        i += 1;
        assert(finding_views(findings@) =~= start + pages_findings(evidence.pages@, i as nat));
        assert(widgets@ =~= widget_pages(evidence.pages@, i as nat));
    }
    let ghost so_far = finding_views(findings@);
    if widgets.len() > 0 && evidence.form_type == FormType::NoForm {
        let mut detail = crate::text::decimal_string(widgets.len() as u64);
        push_str(&mut detail, " form field(s) on ");
        push_decimal(&mut detail, distinct(widgets.as_slice()) as u64);
        push_str(&mut detail, " page(s) are drawn as last saved and cannot be interacted with");
        push_finding(&mut findings, FindingKind::FormFields, None, detail);
    }
    assert(finding_views(findings@) =~= all_findings(*evidence));
    DocumentCapabilities { findings: compress(findings) }
}

/// How far behind its marker the style of a transition may stand.
pub const WINDOW: usize = 160;

/// How many styles there are.
pub const STYLE_COUNT: usize = 10;

/// The styles of transitions. Replacing a page is a style too, but it is a cut,
/// so there is nothing to report of it.
pub open spec fn style(n: int) -> Seq<char> {
    if n == 0 {
        "Split"@
    } else if n == 1 {
        "Blinds"@
    } else if n == 2 {
        "Box"@
    } else if n == 3 {
        "Wipe"@
    } else if n == 4 {
        "Dissolve"@
    } else if n == 5 {
        "Glitter"@
    } else if n == 6 {
        "Fly"@
    } else if n == 7 {
        "Push"@
    } else if n == 8 {
        "Cover"@
    } else {
        "Uncover"@
    }
}

fn style_name(n: usize) -> (name: &'static str)
    ensures
        name@ == style(n as int),
{
    match n {
        0 => "Split",
        1 => "Blinds",
        2 => "Box",
        3 => "Wipe",
        4 => "Dissolve",
        5 => "Glitter",
        6 => "Fly",
        7 => "Push",
        8 => "Cover",
        _ => "Uncover",
    }
}

/// A name stands at a place in a file as a whole: it ends at a delimiter, or
/// where the file does.
pub open spec fn whole_at(bytes: Seq<u8>, name: Seq<u8>, at: int) -> bool {
    &&& occurs_at(bytes, name, at)
    &&& at + name.len() == bytes.len() || is_delimiter(bytes[at + name.len()])
}

/// A name stands as a whole in a file, somewhere from `from` on and before
/// `to`.
pub open spec fn stands_whole(bytes: Seq<u8>, name: Seq<u8>, from: int, to: int) -> bool {
    exists|at: int|
        from <= at && at + name.len() <= to && #[trigger] whole_at(bytes, name, at)
}

/// Is a style named in the part of a file from `from` to `to`?
pub open spec fn names_style(bytes: Seq<u8>, from: int, to: int, name: Seq<char>) -> bool {
    stands_whole(bytes, utf8("/S/"@) + utf8(name), from, to) || stands_whole(
        bytes,
        utf8("/S /"@) + utf8(name),
        from,
        to,
    )
}

/// What was found, and the styles from the `n`th on that a part of a file names
/// and that were not found before.
pub open spec fn with_styles(
    found: Seq<Seq<char>>,
    bytes: Seq<u8>,
    from: int,
    to: int,
    n: int,
) -> Seq<Seq<char>>
    decreases STYLE_COUNT - n,
{
    if n >= STYLE_COUNT {
        found
    } else if names_style(bytes, from, to, style(n)) && !found.contains(style(n)) {
        with_styles(found.push(style(n)), bytes, from, to, n + 1)
    } else {
        with_styles(found, bytes, from, to, n + 1)
    }
}

/// Where the part of a file ends in which a style may stand behind a marker.
pub open spec fn window_end(bytes: Seq<u8>, at: int) -> int {
    if at + WINDOW < bytes.len() {
        at + WINDOW
    } else {
        bytes.len() as int
    }
}

/// What was found, and the styles behind every marker from `at` on.
pub open spec fn styles_from(bytes: Seq<u8>, at: int, found: Seq<Seq<char>>) -> Seq<Seq<char>>
    decreases bytes.len() - at,
{
    let marker = utf8("/Trans"@);
    if at + 6 > bytes.len() {
        found
    } else if whole_at(bytes, marker, at) {
        styles_from(
            bytes,
            at + 6,
            with_styles(found, bytes, at, window_end(bytes, at), 0),
        )
    } else {
        styles_from(bytes, at + 1, found)
    }
}

fn contains_whole(bytes: &[u8], name: &[u8], from: usize, to: usize) -> (found: bool)
    requires
        from <= to <= bytes@.len(),
        name@.len() > 0,
    ensures
        found == stands_whole(bytes@, name@, from as int, to as int),
{
    let length: usize = name.len();
    let mut at: usize = from;
    while at < to && to - at >= length
        invariant
            from <= at <= to <= bytes@.len(),
            length == name@.len(),
            length > 0,
            forall|i: int| from <= i < at ==> !#[trigger] whole_at(bytes@, name@, i),
        decreases to - at,
    {
        if crate::bytes::stands_at(bytes, name, at) {
            let end: usize = at + length;
            if end == bytes.len() || is_delimiter_byte(bytes[end]) {
                assert(whole_at(bytes@, name@, at as int));
                return true;
            }
        }
        at += 1;
    }
    false
}

fn is_found(found: &[String], name: &str) -> (is: bool)
    ensures
        is == views(found@).contains(name@),
{
    let ghost names = views(found@);
    let mut i: usize = 0;
    while i < found.len()
        invariant
            i <= found@.len(),
            names == views(found@),
            forall|j: int| 0 <= j < i ==> #[trigger] names[j] != name@,
        decreases found@.len() - i,
    {
        assert(names[i as int] == found@[i as int]@);
        if same_text(found[i].as_str(), name) {
            assert(names.contains(names[i as int]));
            return true;
        }
        i += 1;
    }
    false
}

fn add_styles(found: &mut Vec<String>, bytes: &[u8], from: usize, to: usize)
    requires
        from <= to <= bytes@.len(),
    ensures
        views(final(found)@) == with_styles(
            views(old(found)@),
            bytes@,
            from as int,
            to as int,
            0,
        ),
{
    let ghost before = views(found@);
    proof {
        reveal_strlit("/S/");
        reveal_strlit("/S /");
        vstd::utf8::is_ascii_chars_encode_utf8("/S/"@);
        vstd::utf8::is_ascii_chars_encode_utf8("/S /"@);
    }
    let mut n: usize = 0;
    while n < STYLE_COUNT
        invariant
            n <= STYLE_COUNT,
            from <= to <= bytes@.len(),
            utf8("/S/"@).len() == 3,
            utf8("/S /"@).len() == 4,
            with_styles(views(found@), bytes@, from as int, to as int, n as int) == with_styles(
                before,
                bytes@,
                from as int,
                to as int,
                0,
            ),
        decreases STYLE_COUNT - n,
    {
        let ghost so_far = views(found@);
        let name = style_name(n);
        let mut tight = text_bytes("/S/");
        crate::bytes::push_text(&mut tight, name);
        let mut spaced = text_bytes("/S /");
        crate::bytes::push_text(&mut spaced, name);
        if (contains_whole(bytes, tight.as_slice(), from, to) || contains_whole(
            bytes,
            spaced.as_slice(),
            from,
            to,
        )) && !is_found(found.as_slice(), name) {
            found.push(owned(name));
            assert(views(found@) =~= so_far.push(style(n as int)));
        }
        n += 1;
    }
}

/// The styles of transitions that the bytes of a PDF name: behind every
/// `/Trans`, the `/S` of a known style within a short distance. A longer name
/// that starts like a style is none, and what stands in compressed streams is
/// missed.
pub fn scan_transition_styles(bytes: &[u8]) -> (found: Vec<String>)
    ensures
        views(found@) == styles_from(bytes@, 0, Seq::empty()),
{
    let marker = text_bytes("/Trans");
    proof {
        reveal_strlit("/Trans");
        vstd::utf8::is_ascii_chars_encode_utf8("/Trans"@);
    }
    let length: usize = bytes.len();
    let mut found: Vec<String> = Vec::new();
    assert(views(found@) =~= Seq::empty());
    let mut at: usize = 0;
    while at < length && length - at >= 6
        invariant
            at <= length,
            length == bytes@.len(),
            marker@ == utf8("/Trans"@),
            marker@.len() == 6,
            styles_from(bytes@, at as int, views(found@)) == styles_from(
                bytes@,
                0,
                Seq::empty(),
            ),
        decreases length - at,
    {
        if crate::bytes::stands_at(bytes, marker.as_slice(), at) && (length - at == 6
            || is_delimiter_byte(bytes[at + 6])) {
            let end: usize = if length - at > WINDOW {
                at + WINDOW
            } else {
                length
            };
            add_styles(&mut found, bytes, at, end);
            at += 6;
        } else {
            at += 1;
        }
    }
    found
}

proof fn lemma_styles_stay(found: Seq<Seq<char>>, bytes: Seq<u8>, from: int, to: int, n: int, name: Seq<char>)
    requires
        0 <= n,
    ensures
        found.contains(name) ==> with_styles(found, bytes, from, to, n).contains(name),
        names_style(bytes, from, to, name) && (exists|k: int|
            n <= k < STYLE_COUNT && name == #[trigger] style(k)) ==> with_styles(
            found,
            bytes,
            from,
            to,
            n,
        ).contains(name),
    decreases STYLE_COUNT - n,
{
    if n < STYLE_COUNT {
        let next = if names_style(bytes, from, to, style(n)) && !found.contains(style(n)) {
            found.push(style(n))
        } else {
            found
        };
        lemma_styles_stay(next, bytes, from, to, n + 1, name);
        if found.contains(name) {
            let i = found.index_of(name);
            assert(next[i] == name);
            assert(next.contains(name));
        }
        if names_style(bytes, from, to, name) && name == style(n) {
            if !found.contains(name) {
                assert(next[found.len() as int] == name);
            }
            assert(next.contains(name));
        }
    }
}

proof fn lemma_style_behind_a_marker(
    bytes: Seq<u8>,
    at: int,
    found: Seq<Seq<char>>,
    name: Seq<char>,
    marker: int,
)
    requires
        0 <= at,
        found.contains(name) || (at <= marker && whole_at(bytes, utf8("/Trans"@), marker)
            && names_style(bytes, marker, window_end(bytes, marker), name) && is_style(name)),
    ensures
        styles_from(bytes, at, found).contains(name),
    decreases bytes.len() - at,
{
    let word = utf8("/Trans"@);
    reveal_strlit("/Trans");
    vstd::utf8::is_ascii_chars_encode_utf8("/Trans"@);
    assert(word.len() == 6);
    assert(word[0] == 47u8);
    assert(word[1] == 84u8 && word[2] == 114u8 && word[3] == 97u8 && word[4] == 110u8 && word[5]
        == 115u8);
    if at + 6 <= bytes.len() {
        if whole_at(bytes, word, at) {
            let end = window_end(bytes, at);
            let more = with_styles(found, bytes, at, end, 0);
            lemma_styles_stay(found, bytes, at, end, 0, name);
            if !more.contains(name) && marker < at + 6 {
                assert(marker > at);
                assert(bytes.subrange(at, at + 6)[marker - at] == bytes[marker]);
                assert(bytes.subrange(marker, marker + 6)[0] == bytes[marker]);
                assert(false);
            }
            lemma_style_behind_a_marker(bytes, at + 6, more, name, marker);
        } else {
            lemma_style_behind_a_marker(bytes, at + 1, found, name, marker);
        }
    }
}

/// A scan finds every style that is written.
pub proof fn law_the_scan_finds_all_that_is_written(bytes: Seq<u8>, name: Seq<char>)
    requires
        is_written(bytes, name),
    ensures
        styles_from(bytes, 0, Seq::empty()).contains(name),
{
    let marker = choose|at: int| #[trigger]
        whole_at(bytes, utf8("/Trans"@), at) && names_style(bytes, at, window_end(bytes, at), name);
    lemma_style_behind_a_marker(bytes, 0, Seq::empty(), name, marker);
}

/// How many findings of a kind the first `n` counts speak of.
pub open spec fn total_of(counts: Seq<(FindingKind, usize)>, kind: FindingKind, n: nat) -> nat
    decreases n,
{
    if n == 0 {
        0
    } else {
        total_of(counts, kind, (n - 1) as nat) + if counts[n - 1].0 == kind {
            counts[n - 1].1 as nat
        } else {
            0
        }
    }
}

proof fn lemma_same_total(
    one: Seq<(FindingKind, usize)>,
    two: Seq<(FindingKind, usize)>,
    kind: FindingKind,
    n: nat,
)
    requires
        n <= one.len(),
        n <= two.len(),
        forall|i: int| 0 <= i < n ==> #[trigger] one[i] == two[i],
    ensures
        total_of(one, kind, n) == total_of(two, kind, n),
    decreases n,
{
    if n > 0 {
        lemma_same_total(one, two, kind, (n - 1) as nat);
        assert(one[n - 1] == two[n - 1]);
    }
}

proof fn lemma_updated_total(
    counts: Seq<(FindingKind, usize)>,
    at: int,
    count: usize,
    kind: FindingKind,
    n: nat,
)
    requires
        0 <= at < counts.len(),
        n <= counts.len(),
        count == counts[at].1 + 1,
    ensures
        total_of(counts.update(at, (counts[at].0, count)), kind, n) == total_of(counts, kind, n)
            + if at < n && counts[at].0 == kind {
            1nat
        } else {
            0
        },
    decreases n,
{
    if n > 0 {
        lemma_updated_total(counts, at, count, kind, (n - 1) as nat);
    }
}

proof fn lemma_counted_total(
    counts: Seq<(FindingKind, usize)>,
    added: FindingKind,
    from: int,
    kind: FindingKind,
)
    requires
        0 <= from <= counts.len(),
        forall|i: int| 0 <= i < counts.len() ==> (#[trigger] counts[i]).1 < usize::MAX,
    ensures
        total_of(counted(counts, added, from), kind, counted(counts, added, from).len())
            == total_of(counts, kind, counts.len()) + if kind == added {
            1nat
        } else {
            0
        },
    decreases counts.len() - from,
{
    if from >= counts.len() {
        let more = counts.push((added, 1usize));
        lemma_same_total(more, counts, kind, counts.len());
    } else if counts[from].0 == added {
        lemma_updated_total(
            counts,
            from,
            (counts[from].1 + 1) as usize,
            kind,
            counts.len(),
        );
    } else {
        lemma_counted_total(counts, added, from + 1, kind);
    }
}

proof fn lemma_part_of_total(counts: Seq<(FindingKind, usize)>, n: nat, i: int)
    requires
        0 <= i < n <= counts.len(),
    ensures
        counts[i].1 <= total_of(counts, counts[i].0, n),
    decreases n,
{
    if i < n - 1 {
        lemma_part_of_total(counts, (n - 1) as nat, i);
    }
}

/// Of the findings of a kind as many are kept as fit, and all the others are
/// counted.
pub proof fn law_what_is_not_kept_is_counted(findings: Seq<Finding>, kind: FindingKind, n: nat)
    requires
        n <= findings.len() <= usize::MAX,
    ensures
        count_of(kept(findings, n), kind) + total_of(
            dropped(findings, n),
            kind,
            dropped(findings, n).len(),
        ) == findings_of_kind(findings, kind, n).len(),
        total_of(dropped(findings, n), kind, dropped(findings, n).len()) > 0 ==> count_of(
            kept(findings, n),
            kind,
        ) == MAX_FINDINGS_PER_KIND,
    decreases n,
{
    if n > 0 {
        let m = (n - 1) as nat;
        let last = findings[n - 1];
        let before = kept(findings, m);
        let counts = dropped(findings, m);
        law_what_is_not_kept_is_counted(findings, kind, m);
        lemma_of_kind(findings, kind, m);
        if count_of(before, last.kind) < MAX_FINDINGS_PER_KIND {
            let after = before.push(last);
            lemma_prefix_counts(before, after, kind, before.len());
            assert(findings_of_kind(after, kind, after.len()) == if last.kind == kind {
                findings_of_kind(after, kind, before.len()).push(last)
            } else {
                findings_of_kind(after, kind, before.len())
            });
            if kind == last.kind {
                assert(total_of(counts, kind, counts.len()) == 0);
            }
        } else {
            assert forall|i: int| 0 <= i < counts.len() implies (#[trigger] counts[i]).1
                < usize::MAX by {
                lemma_part_of_total(counts, counts.len(), i);
                law_what_is_not_kept_is_counted(findings, counts[i].0, m);
                lemma_of_kind(findings, counts[i].0, m);
            }
            lemma_counted_total(counts, last.kind, 0, kind);
            lemma_kept_counts(findings, m, last.kind);
        }
    }
}

proof fn lemma_of_kind(findings: Seq<Finding>, kind: FindingKind, n: nat)
    ensures
        findings_of_kind(findings, kind, n).len() <= n,
    decreases n,
{
    if n > 0 {
        lemma_of_kind(findings, kind, (n - 1) as nat);
    }
}

/// What is found on pages names the page that shows it.
pub proof fn law_findings_name_their_page(pages: Seq<PageEvidence>, n: nat, i: int)
    requires
        n <= pages.len(),
        0 <= i < pages_findings(pages, n).len(),
    ensures
        exists|k: int|
            0 <= k < n && pages_findings(pages, n)[i].page == Some((#[trigger] pages[k]).page)
                && page_shows(pages[k], pages_findings(pages, n)[i].kind),
    decreases n,
{
    let page = pages[n - 1];
    let before = pages_findings(pages, (n - 1) as nat);
    let turned = transition_findings(page);
    let found = annotations_findings(page.page, page.annotations@, page.annotations@.len());
    assert(pages_findings(pages, n) == before + turned + found);
    if i < before.len() {
        law_findings_name_their_page(pages, (n - 1) as nat, i);
        let k = choose|k: int|
            0 <= k < n - 1 && before[i].page == Some((#[trigger] pages[k]).page) && page_shows(
                pages[k],
                before[i].kind,
            );
        assert(pages_findings(pages, n)[i] == before[i]);
        assert(page_shows(pages[k], before[i].kind));
    } else if i < before.len() + turned.len() {
        assert(pages_findings(pages, n)[i] == turned[i - before.len()]);
        assert(page_shows(pages[n - 1], turned[i - before.len()].kind));
    } else {
        let j = i - before.len() - turned.len();
        assert(pages_findings(pages, n)[i] == found[j]);
        lemma_annotations_name_their_page(page.page, page.annotations@, page.annotations@.len(), j);
        assert(page_shows(pages[n - 1], found[j].kind));
    }
}

proof fn lemma_annotations_name_their_page(
    page: usize,
    annotations: Seq<AnnotationEvidence>,
    n: nat,
    i: int,
)
    requires
        n <= annotations.len(),
        0 <= i < annotations_findings(page, annotations, n).len(),
    ensures
        annotations_findings(page, annotations, n)[i].page == Some(page),
        annotations_show(annotations, annotations_findings(page, annotations, n)[i].kind, n),
    decreases n,
{
    let before = annotations_findings(page, annotations, (n - 1) as nat);
    let found = annotation_findings(page, annotations[n - 1]);
    if i < before.len() {
        lemma_annotations_name_their_page(page, annotations, (n - 1) as nat, i);
        let kind = before[i].kind;
        let k = choose|k: int| 0 <= k < n - 1 && annotation_shows(#[trigger] annotations[k], kind);
        assert(annotation_shows(annotations[k], kind));
    } else {
        assert(annotations_findings(page, annotations, n)[i] == found[i - before.len()]);
        assert(annotation_shows(annotations[n - 1], found[i - before.len()].kind));
    }
}

/// A report has a line for each finding, in their order, which names its kind and
/// the number of its page, where it has one, counted from one.
pub proof fn law_every_finding_has_a_line(findings: Seq<Finding>, n: nat, i: int)
    requires
        0 <= i < n <= findings.len(),
    ensures
        report_lines(findings, n).len() == n,
        report_lines(findings, n)[i] == "  ["@ + findings[i].kind.noun() + "] "@ + (
        match findings[i].page {
            Some(page) => "page "@ + decimal_text((page + 1) as nat) + ": "@ + findings[i].detail,
            None => findings[i].detail,
        }),
    decreases n,
{
    lemma_line_count(findings, (n - 1) as nat);
    if i < n - 1 {
        law_every_finding_has_a_line(findings, (n - 1) as nat, i);
    }
}

proof fn lemma_line_count(findings: Seq<Finding>, n: nat)
    ensures
        report_lines(findings, n).len() == n,
    decreases n,
{
    if n > 0 {
        lemma_line_count(findings, (n - 1) as nat);
    }
}

/// The form fields of a document are counted page by page: there are as many as its
/// pages have together, and a page is named exactly where it has one.
pub proof fn law_form_fields_are_counted(pages: Seq<PageEvidence>, n: nat, page: usize)
    requires
        0 < n <= pages.len(),
    ensures
        widget_pages(pages, n).len() == widget_pages(pages, (n - 1) as nat).len()
            + pages[n - 1].annotations@.filter(
            |annotation: AnnotationEvidence| annotation.subtype == AnnotationSubtype::Widget,
        ).len(),
        widget_pages(pages, 0).len() == 0,
        widget_pages(pages, n).contains(page) <==> exists|i: int|
            0 <= i < n && (#[trigger] pages[i]).page == page && has_widget(pages[i]),
    decreases n,
{
    let last = pages[n - 1];
    let before = widget_pages(pages, (n - 1) as nat);
    let count = widgets_among(last.annotations@, last.annotations@.len());
    let more = Seq::new(count, |i: int| last.page);
    lemma_widgets(last.annotations@, last.annotations@.len());
    assert(last.annotations@.take(last.annotations@.len() as int) =~= last.annotations@);
    let all = before + more;
    if n > 1 {
        law_form_fields_are_counted(pages, (n - 1) as nat, page);
    } else {
        assert(before =~= Seq::empty());
    }
    if before.contains(page) {
        let k = before.index_of(page);
        assert(all[k] == page);
    }
    if last.page == page && count > 0 {
        assert(all[before.len() as int] == page);
        assert(has_widget(pages[n - 1]));
    }
    if all.contains(page) {
        let k = all.index_of(page);
        if k < before.len() {
            assert(before[k] == page);
            let i = choose|i: int|
                0 <= i < n - 1 && (#[trigger] pages[i]).page == page && has_widget(pages[i]);
            assert(pages[i].page == page);
        } else {
            assert(all[k] == last.page);
            assert(pages[n - 1].page == page);
        }
    }
}

proof fn lemma_widgets(annotations: Seq<AnnotationEvidence>, n: nat)
    requires
        n <= annotations.len(),
    ensures
        widgets_among(annotations, n) == annotations.take(n as int).filter(
            |annotation: AnnotationEvidence| annotation.subtype == AnnotationSubtype::Widget,
        ).len(),
    decreases n,
{
    let widget = |annotation: AnnotationEvidence| annotation.subtype == AnnotationSubtype::Widget;
    reveal(Seq::filter);
    if n > 0 {
        lemma_widgets(annotations, (n - 1) as nat);
        let all = annotations.take(n as int);
        assert(all.drop_last() =~= annotations.take(n - 1));
        assert(all.last() == annotations[n - 1]);
    } else {
        assert(annotations.take(0).filter(widget) =~= Seq::empty());
    }
}

/// Sound, artwork in space and rich media are what there is no player for, and the
/// actions that are not performed are those that leave the document and those that
/// are not known.
pub proof fn law_what_is_not_done_is_told(subtype: AnnotationSubtype, action: ActionKind)
    ensures
        media_detail(subtype) is Some <==> (subtype == AnnotationSubtype::Sound || subtype
            == AnnotationSubtype::ThreeD || subtype == AnnotationSubtype::RichMedia),
        action_detail(action) is Some <==> (action == ActionKind::Launch || action
            == ActionKind::RemoteGoTo || action == ActionKind::EmbeddedGoTo || action
            == ActionKind::Unrecognised),
{
}

} // verus!
