use vstd::prelude::*;

verus! {

/// Something in the page that cannot be represented yet; reported to the
/// caller as a non-fatal warning.
#[derive(Debug, Clone, Copy, PartialEq, Eq, Structural)]
pub enum ExportWarning {
    ClipPathNotSupported,
    ImageGlyphNotSupported,
    GradientNotSupprted,
    TilingNotSupported,
    ImageNotSupported,
}

/// The name under which a warning is reported.
pub open spec fn warning_name(w: ExportWarning) -> Seq<char> {
    match w {
        ExportWarning::ClipPathNotSupported => "ClipPathNotSupported"@,
        ExportWarning::ImageGlyphNotSupported => "ImageGlyphNotSupported"@,
        ExportWarning::GradientNotSupprted => "GradientNotSupported"@,
        ExportWarning::TilingNotSupported => "TilingNotSupported"@,
        ExportWarning::ImageNotSupported => "ImageNotSupported"@,
    }
}

impl ExportWarning {
    /// The name under which this warning is reported.
    pub fn as_str(&self) -> (s: &'static str)
        ensures
            s@ == warning_name(*self),
    {
        match self {
            ExportWarning::ClipPathNotSupported => "ClipPathNotSupported",
            ExportWarning::ImageGlyphNotSupported => "ImageGlyphNotSupported",
            ExportWarning::GradientNotSupprted => "GradientNotSupported",
            ExportWarning::TilingNotSupported => "TilingNotSupported",
            ExportWarning::ImageNotSupported => "ImageNotSupported",
        }
    }
}

/// Each warning is reported under a name of its own.
pub proof fn lemma_warning_names_distinct(a: ExportWarning, b: ExportWarning)
    ensures
        warning_name(a) == warning_name(b) ==> a == b,
{
    reveal_strlit("ClipPathNotSupported");
    reveal_strlit("ImageGlyphNotSupported");
    reveal_strlit("GradientNotSupported");
    reveal_strlit("TilingNotSupported");
    reveal_strlit("ImageNotSupported");
    if a != b {
        let na = warning_name(a);
        let nb = warning_name(b);
        if na.len() == nb.len() {
            assert(na[0] != nb[0] || na[5] != nb[5]);
        }
    }
}

} // verus!
