//! Namespaces of DrawingML pictures.

use vstd::prelude::*;

verus! {

/// WordprocessingML drawing namespace.
pub const WP: &'static str = "http://schemas.openxmlformats.org/drawingml/2006/wordprocessingDrawing";

/// DrawingML main namespace.
pub const A: &'static str = "http://schemas.openxmlformats.org/drawingml/2006/main";

/// DrawingML picture namespace.
pub const PIC: &'static str = "http://schemas.openxmlformats.org/drawingml/2006/picture";

/// Relationships namespace.
pub const R: &'static str = "http://schemas.openxmlformats.org/officeDocument/2006/relationships";

} // verus!
