//! What a document holds that will be ignored or flattened.

use pulpit_render::pdf::capabilities::{
    analyse, scan_transition_styles, ActionKind, AnnotationEvidence, AnnotationSubtype,
    DocumentCapabilities, DocumentEvidence, FindingKind, FormType, PageEvidence,
    RestrictionEvidence, MAX_FINDINGS_PER_KIND,
};

fn page(page: usize, annotations: Vec<AnnotationEvidence>) -> PageEvidence {
    PageEvidence {
        page,
        annotations,
        transition: None,
    }
}

fn annotation(subtype: AnnotationSubtype, action: ActionKind) -> AnnotationEvidence {
    AnnotationEvidence {
        subtype,
        action,
        uri: None,
        has_additional_actions: false,
    }
}

fn analyse_pages(pages: Vec<PageEvidence>) -> DocumentCapabilities {
    analyse(&DocumentEvidence {
        pages,
        ..Default::default()
    })
}

#[test]
fn a_plain_deck_has_nothing_to_report() {
    let capabilities = analyse_pages(vec![page(
        0,
        vec![annotation(AnnotationSubtype::Link, ActionKind::GoTo)],
    )]);
    assert!(capabilities.is_empty());
    assert_eq!(
        capabilities.to_report(),
        "nothing in this document will be ignored or flattened"
    );
}

#[test]
fn the_overlays_pulpit_plays_are_never_reported_as_unsupported() {
    let capabilities = analyse_pages(vec![page(
        0,
        vec![
            AnnotationEvidence {
                subtype: AnnotationSubtype::Screen,
                action: ActionKind::Rendition,
                uri: None,
                has_additional_actions: false,
            },
            AnnotationEvidence {
                subtype: AnnotationSubtype::Movie,
                action: ActionKind::NoAction,
                uri: None,
                has_additional_actions: false,
            },
            AnnotationEvidence {
                subtype: AnnotationSubtype::Link,
                action: ActionKind::Uri,
                uri: Some("pulpit://video/clip?autoplay".into()),
                has_additional_actions: false,
            },
            AnnotationEvidence {
                subtype: AnnotationSubtype::Link,
                action: ActionKind::Uri,
                uri: Some("run:media/clip.mp4?autostart".into()),
                has_additional_actions: false,
            },
        ],
    )]);
    assert!(
        capabilities.is_empty(),
        "pulpit's own overlay conventions must not be reported: {capabilities:?}"
    );
}

#[test]
fn unplayable_media_is_reported_per_page_with_what_will_be_seen() {
    let capabilities = analyse_pages(vec![
        page(
            2,
            vec![annotation(AnnotationSubtype::Sound, ActionKind::NoAction)],
        ),
        page(
            5,
            vec![annotation(AnnotationSubtype::ThreeD, ActionKind::NoAction)],
        ),
        page(
            6,
            vec![annotation(AnnotationSubtype::RichMedia, ActionKind::NoAction)],
        ),
    ]);
    let media = capabilities.of_kind(FindingKind::UnplayableMedia);
    assert_eq!(media.len(), 3);
    assert_eq!(media[0].page, Some(2));
    assert!(media[0].detail.contains("silent"));
    assert!(media[1].detail.contains("poster"));
    assert!(
        capabilities.to_report().contains("page 3:"),
        "pages are one-based for the presenter"
    );
}

#[test]
fn form_fields_are_reported_once_for_the_whole_deck() {
    let capabilities = analyse_pages(vec![
        page(
            0,
            vec![
                annotation(AnnotationSubtype::Widget, ActionKind::NoAction),
                annotation(AnnotationSubtype::Widget, ActionKind::NoAction),
            ],
        ),
        page(
            1,
            vec![annotation(AnnotationSubtype::Widget, ActionKind::NoAction)],
        ),
    ]);
    let forms = capabilities.of_kind(FindingKind::FormFields);
    assert_eq!(forms.len(), 1);
    assert_eq!(forms[0].page, None);
    assert!(forms[0].detail.contains("3 form field(s) on 2 page(s)"));
}

#[test]
fn a_declared_acroform_is_reported_without_counting_widgets_twice() {
    let capabilities = analyse(&DocumentEvidence {
        form_type: FormType::AcroForm,
        pages: vec![page(
            0,
            vec![annotation(AnnotationSubtype::Widget, ActionKind::NoAction)],
        )],
        ..Default::default()
    });
    assert_eq!(capabilities.of_kind(FindingKind::FormFields).len(), 1);
}

#[test]
fn an_xfa_document_says_what_the_audience_will_actually_see() {
    let capabilities = analyse(&DocumentEvidence {
        form_type: FormType::Xfa,
        ..Default::default()
    });
    assert!(capabilities.has(FindingKind::Xfa));
    assert!(!capabilities.has(FindingKind::FormFields));
    assert!(capabilities.of_kind(FindingKind::Xfa)[0]
        .detail
        .contains("static fallback"));
}

#[test]
fn document_javascript_names_the_scripts_that_will_not_run() {
    let capabilities = analyse(&DocumentEvidence {
        document_javascript: vec!["setUp".into(), "autoAdvance".into()],
        ..Default::default()
    });
    let findings = capabilities.of_kind(FindingKind::DocumentJavaScript);
    assert_eq!(findings.len(), 1);
    assert!(findings[0].detail.contains("setUp, autoAdvance"));
}

#[test]
fn many_script_names_are_summarised_rather_than_listed() {
    let capabilities = analyse(&DocumentEvidence {
        document_javascript: (0..20).map(|index| format!("script{index}")).collect(),
        ..Default::default()
    });
    assert!(capabilities.of_kind(FindingKind::DocumentJavaScript)[0]
        .detail
        .contains('…'));
}

#[test]
fn annotation_scripts_are_reported_against_their_page() {
    let capabilities = analyse_pages(vec![page(
        4,
        vec![AnnotationEvidence {
            subtype: AnnotationSubtype::Link,
            action: ActionKind::GoTo,
            uri: None,
            has_additional_actions: true,
        }],
    )]);
    let findings = capabilities.of_kind(FindingKind::AnnotationJavaScript);
    assert_eq!(findings.len(), 1);
    assert_eq!(findings[0].page, Some(4));
}

#[test]
fn a_page_transition_says_pulpit_will_cut_instead() {
    let capabilities = analyse_pages(vec![PageEvidence {
        page: 7,
        annotations: Vec::new(),
        transition: Some("Dissolve".into()),
    }]);
    let findings = capabilities.of_kind(FindingKind::PageTransition);
    assert_eq!(findings.len(), 1);
    assert_eq!(
        findings[0].detail,
        "this page declares a dissolve transition; pulpit will cut to it instead"
    );
}

#[test]
fn every_refused_action_type_explains_the_dead_click() {
    for (action, expected) in [
        (ActionKind::Launch, "never runs it"),
        (ActionKind::RemoteGoTo, "another document"),
        (ActionKind::EmbeddedGoTo, "another document"),
        (ActionKind::Unrecognised, "JavaScript"),
    ] {
        let capabilities = analyse_pages(vec![page(
            1,
            vec![annotation(AnnotationSubtype::Link, action)],
        )]);
        let findings = capabilities.of_kind(FindingKind::UnsupportedAction);
        assert_eq!(findings.len(), 1, "{action:?}");
        assert!(findings[0].detail.contains(expected), "{action:?}");
        assert!(findings[0].detail.contains("do nothing"), "{action:?}");
    }
}

#[test]
fn an_encrypted_document_is_reported_as_a_stage_risk() {
    let capabilities = analyse(&DocumentEvidence {
        restriction: Some(RestrictionEvidence {
            security_revision: 3,
            permissions: 0xffff_fffc,
        }),
        ..Default::default()
    });
    assert!(capabilities.has(FindingKind::Restricted));

    let unencrypted = analyse(&DocumentEvidence {
        restriction: Some(RestrictionEvidence {
            security_revision: 0,
            permissions: 0xffff_ffff,
        }),
        ..Default::default()
    });
    assert!(
        unencrypted.is_empty(),
        "an unencrypted document has no restriction to report"
    );
}

#[test]
fn transitions_found_only_in_the_bytes_are_reported_for_the_whole_document() {
    let capabilities = analyse(&DocumentEvidence {
        transition_styles: vec!["Dissolve".into(), "Wipe".into()],
        ..Default::default()
    });
    let findings = capabilities.of_kind(FindingKind::PageTransition);
    assert_eq!(findings.len(), 1);
    assert_eq!(findings[0].page, None);
    assert!(findings[0].detail.contains("Dissolve, Wipe"));
    assert!(findings[0].detail.contains("cuts between slides"));
}

#[test]
fn the_byte_scan_finds_declared_transition_styles_and_nothing_else() {
    let page = b"<< /Type /Page /Trans << /Type /Trans /S /Dissolve /D 1 >> >>";
    assert_eq!(scan_transition_styles(page), vec!["Dissolve".to_string()]);

    let tight = b"<</Trans<</S/Wipe/Di 90>>>><</Trans<</S/Wipe>>>>";
    assert_eq!(
        scan_transition_styles(tight),
        vec!["Wipe".to_string()],
        "a style declared twice is reported once"
    );

    assert!(
        scan_transition_styles(b"<< /Trans << /S /R >> >>").is_empty(),
        "the replace style is a cut, which is what pulpit does anyway"
    );
    assert!(scan_transition_styles(
        b"a plain deck with /S /Dissolve nowhere near a trans dict"
    )
    .is_empty());
    assert!(scan_transition_styles(b"").is_empty());
    assert!(scan_transition_styles(b"/Tran").is_empty());
}

#[test]
fn a_repeated_finding_is_summarised_instead_of_repeated_hundreds_of_times() {
    let pages = (0..200)
        .map(|index| PageEvidence {
            page: index,
            annotations: Vec::new(),
            transition: Some("Wipe".into()),
        })
        .collect();
    let capabilities = analyse_pages(pages);
    let findings = capabilities.of_kind(FindingKind::PageTransition);
    assert_eq!(findings.len(), MAX_FINDINGS_PER_KIND + 1);
    let summary = findings.last().unwrap();
    assert_eq!(summary.page, None);
    assert!(summary
        .detail
        .contains(&format!("{} further page(s)", 200 - MAX_FINDINGS_PER_KIND)));
}

#[test]
fn a_finding_is_described_by_its_page_and_its_kind() {
    let capabilities = analyse_pages(vec![page(
        4,
        vec![annotation(AnnotationSubtype::Sound, ActionKind::NoAction)],
    )]);
    assert_eq!(capabilities.len(), 1);
    let line = capabilities.findings[0].describe();
    assert!(line.starts_with("page 5: "), "{line}");
    assert!(!FindingKind::UnplayableMedia.label().is_empty());
}
