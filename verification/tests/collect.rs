use typst4janim::collect::{Collected, Collecter, PaintKind};
use typst4janim::export::check_page_count;
use typst4janim::warnings::ExportWarning;

fn s(x: &str) -> String {
    x.to_string()
}

#[test]
fn warning_names() {
    assert_eq!(ExportWarning::ClipPathNotSupported.as_str(), "ClipPathNotSupported");
    assert_eq!(ExportWarning::ImageGlyphNotSupported.as_str(), "ImageGlyphNotSupported");
    assert_eq!(ExportWarning::GradientNotSupprted.as_str(), "GradientNotSupported");
    assert_eq!(ExportWarning::TilingNotSupported.as_str(), "TilingNotSupported");
    assert_eq!(ExportWarning::ImageNotSupported.as_str(), "ImageNotSupported");
}

#[test]
fn warning_names_are_distinct() {
    let all = [
        ExportWarning::ClipPathNotSupported,
        ExportWarning::ImageGlyphNotSupported,
        ExportWarning::GradientNotSupprted,
        ExportWarning::TilingNotSupported,
        ExportWarning::ImageNotSupported,
    ];
    for a in all.iter() {
        for b in all.iter() {
            assert_eq!(a == b, a.as_str() == b.as_str());
        }
    }
}

#[test]
fn single_page_is_accepted() {
    assert_eq!(check_page_count(1), Ok(()));
}

#[test]
fn multi_page_is_refused_with_count() {
    assert_eq!(
        check_page_count(2),
        Err(s("Cannot compile multi-page typst document (found 2 pages)"))
    );
    assert_eq!(
        check_page_count(12),
        Err(s("Cannot compile multi-page typst document (found 12 pages)"))
    );
    assert_eq!(
        check_page_count(1000),
        Err(s("Cannot compile multi-page typst document (found 1000 pages)"))
    );
}

#[test]
fn empty_collecter_finishes_empty() {
    let c: Collecter<u32, u32> = Collecter::new();
    let out: Collected<u32, u32> = c.finish();
    assert!(out.elements.is_empty());
    assert!(out.shared.is_empty());
    assert!(out.groups.is_empty());
    assert!(out.warnings.is_empty());
}

#[test]
fn elements_are_numbered_in_order() {
    let mut c: Collecter<u32, u32> = Collecter::new();
    assert_eq!(c.insert_element(s("Shape"), 10), 0);
    assert_eq!(c.insert_element(s("TextGlyph"), 11), 1);
    assert_eq!(c.insert_element(s("Shape"), 12), 2);
    let out = c.finish();
    let types: Vec<&str> = out.elements.iter().map(|e| e.elemtype.as_str()).collect();
    assert_eq!(types, vec!["Shape", "TextGlyph", "Shape"]);
    let payloads: Vec<u32> = out.elements.iter().map(|e| e.payload).collect();
    assert_eq!(payloads, vec![10, 11, 12]);
    assert!(out.groups.is_empty());
}

#[test]
fn labelled_elements_are_grouped() {
    let mut c: Collecter<u32, u32> = Collecter::new();
    c.insert_element(s("Shape"), 0);
    let outer = c.enter_label(Some(s("outer")));
    assert!(outer);
    c.insert_element(s("Shape"), 1);
    let inner = c.enter_label(Some(s("inner")));
    c.insert_element(s("TextGlyph"), 2);
    c.leave_label(inner);
    let none = c.enter_label(None);
    assert!(!none);
    c.insert_element(s("Shape"), 3);
    c.leave_label(none);
    c.leave_label(outer);
    c.insert_element(s("Shape"), 4);
    let out = c.finish();
    assert_eq!(out.elements.len(), 5);
    assert_eq!(
        out.groups,
        vec![(s("outer"), vec![1, 2, 3]), (s("inner"), vec![2])]
    );
}

#[test]
fn reentered_label_keeps_its_group_and_place() {
    let mut c: Collecter<u32, u32> = Collecter::new();
    let a = c.enter_label(Some(s("a")));
    c.insert_element(s("Shape"), 0);
    c.leave_label(a);
    let b = c.enter_label(Some(s("b")));
    c.insert_element(s("Shape"), 1);
    c.leave_label(b);
    let a = c.enter_label(Some(s("a")));
    c.insert_element(s("Shape"), 2);
    c.leave_label(a);
    let out = c.finish();
    assert_eq!(out.groups, vec![(s("a"), vec![0, 2]), (s("b"), vec![1])]);
}

#[test]
fn label_active_twice_counts_twice() {
    let mut c: Collecter<u32, u32> = Collecter::new();
    let a1 = c.enter_label(Some(s("a")));
    let a2 = c.enter_label(Some(s("a")));
    c.insert_element(s("Shape"), 0);
    c.leave_label(a2);
    c.insert_element(s("Shape"), 1);
    c.leave_label(a1);
    let out = c.finish();
    assert_eq!(out.groups, vec![(s("a"), vec![0, 0, 1])]);
}

#[test]
fn label_without_elements_has_empty_group() {
    let mut c: Collecter<u32, u32> = Collecter::new();
    let a = c.enter_label(Some(s("empty")));
    c.leave_label(a);
    c.insert_element(s("Shape"), 0);
    let out = c.finish();
    assert_eq!(out.groups, vec![(s("empty"), vec![])]);
}

#[test]
fn shared_data_is_stored_once_per_id() {
    let mut c: Collecter<u32, &str> = Collecter::new();
    assert_eq!(c.find_shared(7), None);
    assert_eq!(c.insert_shared_element(s("TextGlyph"), 0, 7, Some("seven")), (0, 0));
    assert_eq!(c.insert_shared_element(s("TextGlyph"), 1, 3, Some("three")), (1, 1));
    assert_eq!(c.find_shared(7), Some(0));
    assert_eq!(c.insert_shared_element(s("TextGlyph"), 2, 7, None), (2, 0));
    assert_eq!(c.insert_shared_element(s("TextGlyph"), 3, 7, Some("again")), (3, 0));
    assert_eq!(*c.shared_at(0), "seven");
    assert_eq!(*c.shared_at(1), "three");
    let big: u128 = u128::MAX - 1;
    assert_eq!(c.insert_shared_element(s("TextGlyph"), 4, big, Some("big")), (4, 2));
    assert_eq!(c.find_shared(big), Some(2));
    let out = c.finish();
    assert_eq!(out.shared, vec![(7, "seven"), (3, "three"), (big, "big")]);
    let refs: Vec<Option<u128>> = out.elements.iter().map(|e| e.shared_id).collect();
    assert_eq!(refs, vec![Some(7), Some(3), Some(7), Some(7), Some(big)]);
}

#[test]
fn shared_ids_and_references_match() {
    let mut c: Collecter<u32, u32> = Collecter::new();
    c.insert_element(s("Shape"), 0);
    c.insert_shared_element(s("TextGlyph"), 1, 40, Some(400));
    c.insert_element(s("Shape"), 2);
    c.insert_shared_element(s("TextGlyph"), 3, 41, Some(410));
    c.insert_shared_element(s("TextGlyph"), 4, 40, Some(999));
    let out = c.finish();
    for e in out.elements.iter() {
        match e.shared_id {
            Some(id) => assert!(out.shared.iter().any(|(k, _)| *k == id)),
            None => assert_eq!(e.elemtype, "Shape"),
        }
    }
    for (k, _) in out.shared.iter() {
        assert!(out.elements.iter().any(|e| e.shared_id == Some(*k)));
    }
    assert_eq!(out.shared, vec![(40, 400), (41, 410)]);
}

#[test]
fn shared_elements_join_active_groups() {
    let mut c: Collecter<u32, u32> = Collecter::new();
    let a = c.enter_label(Some(s("a")));
    c.insert_shared_element(s("TextGlyph"), 0, 1, Some(10));
    c.leave_label(a);
    c.insert_shared_element(s("TextGlyph"), 1, 1, None);
    let out = c.finish();
    assert_eq!(out.groups, vec![(s("a"), vec![0])]);
}

#[test]
fn groups_strictly_increase_without_repeated_labels() {
    let mut c: Collecter<u32, u32> = Collecter::new();
    let a = c.enter_label(Some(s("a")));
    c.insert_element(s("Shape"), 0);
    let b = c.enter_label(Some(s("b")));
    c.insert_element(s("Shape"), 1);
    c.insert_element(s("Shape"), 2);
    c.leave_label(b);
    c.insert_element(s("Shape"), 3);
    c.leave_label(a);
    let out = c.finish();
    for (_, members) in out.groups.iter() {
        for w in members.windows(2) {
            assert!(w[0] < w[1]);
        }
    }
    assert_eq!(out.groups, vec![(s("a"), vec![0, 1, 2, 3]), (s("b"), vec![1, 2])]);
}

#[test]
fn warnings_keep_their_order() {
    let mut c: Collecter<u32, u32> = Collecter::new();
    c.add_warning(ExportWarning::TilingNotSupported);
    c.collect_image();
    c.add_warning(ExportWarning::ClipPathNotSupported);
    c.add_warning(ExportWarning::TilingNotSupported);
    let out = c.finish();
    assert_eq!(
        out.warnings,
        vec![
            s("TilingNotSupported"),
            s("ImageNotSupported"),
            s("ClipPathNotSupported"),
            s("TilingNotSupported")
        ]
    );
    assert!(out.elements.is_empty());
}

#[test]
fn clipped_group_warns_and_still_groups() {
    let mut c: Collecter<u32, u32> = Collecter::new();
    let g = c.enter_group(true, Some(s("clipped")));
    assert!(g);
    c.insert_element(s("Shape"), 0);
    c.leave_label(g);
    let h = c.enter_group(false, None);
    assert!(!h);
    c.insert_element(s("Shape"), 1);
    c.leave_label(h);
    let out = c.finish();
    assert_eq!(out.warnings, vec![s("ClipPathNotSupported")]);
    assert_eq!(out.groups, vec![(s("clipped"), vec![0])]);
}

#[test]
fn paints_other_than_solid_warn() {
    let mut c: Collecter<u32, u32> = Collecter::new();
    assert!(c.paint_supported(PaintKind::Solid));
    assert!(!c.paint_supported(PaintKind::Gradient));
    assert!(!c.paint_supported(PaintKind::Tiling));
    let out = c.finish();
    assert_eq!(out.warnings, vec![s("GradientNotSupported"), s("TilingNotSupported")]);
}

#[test]
fn unoutlined_glyphs_warn() {
    let mut c: Collecter<u32, u32> = Collecter::new();
    assert!(c.glyph_supported(true));
    assert!(!c.glyph_supported(false));
    let out = c.finish();
    assert_eq!(out.warnings, vec![s("ImageGlyphNotSupported")]);
}

#[test]
fn group_members_are_element_positions() {
    let mut c: Collecter<u32, u32> = Collecter::new();
    let a = c.enter_label(Some(s("a")));
    c.insert_element(s("Shape"), 0);
    let b = c.enter_group(false, Some(s("b")));
    c.insert_element(s("Shape"), 1);
    c.insert_element(s("Shape"), 2);
    c.leave_label(b);
    c.leave_label(a);
    let z = c.enter_label(Some(s("z")));
    c.leave_label(z);
    c.insert_element(s("Shape"), 3);
    let out = c.finish();
    let mut labels: Vec<&str> = out.groups.iter().map(|g| g.0.as_str()).collect();
    labels.dedup();
    assert_eq!(labels, vec!["a", "b", "z"]);
    for (_, members) in out.groups.iter() {
        for m in members {
            assert!(*m < out.elements.len());
        }
    }
    assert_eq!(out.groups[0].1, vec![0, 1, 2]);
    assert_eq!(out.groups[1].1, vec![1, 2]);
    assert!(out.groups[2].1.is_empty());
}
