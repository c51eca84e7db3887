//! Rendering data of Data Matrix symbols for a user interface.
//!
//! The bitmap and its horizontal runs of dark modules are prepared once,
//! outside the render loop; an element then carries the colours, the quiet
//! zone, the smallest module size in device pixels and the accessibility
//! label that a renderer needs.
use vstd::prelude::*;
use crate::DataMatrix;
use crate::placement::{Bitmap, ModuleRun, spec_dark_runs};

verus! {

/// The largest width or height whose coordinates a 32-bit float represents exactly.
pub const MAX_EXACT_F32_INTEGER: usize = 16777216;

/// Failure to prepare a bitmap for rendering.
#[derive(Clone, Copy, Debug, PartialEq, Eq, Structural)]
pub enum PreparationError {
    /// The bitmap has no row.
    EmptyBitmap,
    /// The width or the height exceeds what float coordinates represent exactly.
    DimensionsTooLarge {
        /// The width of the bitmap.
        width: usize,
        /// The height of the bitmap.
        height: usize,
        /// The largest supported width or height.
        maximum: usize,
    },
}

/// A Data Matrix prepared for rendering: the bitmap and its horizontal runs
/// of dark modules, computed once.
#[derive(Clone, Debug)]
pub struct PreparedDataMatrix {
    bitmap: Bitmap,
    dark_runs: Vec<ModuleRun>,
}

impl PreparedDataMatrix {
    /// The prepared bitmap.
    pub closed spec fn spec_bitmap(&self) -> Bitmap {
        self.bitmap
    }

    /// The prepared runs.
    pub closed spec fn spec_dark_runs(&self) -> Seq<ModuleRun> {
        self.dark_runs@
    }

    /// The runs are those of the bitmap.
    pub open spec fn wf(&self) -> bool {
        &&& self.spec_bitmap().wf()
        &&& self.spec_dark_runs() == spec_dark_runs(self.spec_bitmap().spec_bits(),
            self.spec_bitmap().spec_width(), self.spec_bitmap().spec_bits().len() as int)
    }

    /// Prepares an encoded Data Matrix for rendering.
    pub fn new(data_matrix: &DataMatrix) -> (r: PreparedDataMatrix)
        requires
            data_matrix.wf(),
        ensures
            r.wf(),
            r.spec_bitmap().spec_width() == data_matrix.spec_size().spec_setup().width,
            r.spec_bitmap().spec_height() == data_matrix.spec_size().spec_setup().height,
    {
        PreparedDataMatrix::from_valid_bitmap(data_matrix.bitmap())
    }

    /// Prepares a bitmap for rendering.
    ///
    /// # Errors
    ///
    /// Fails when the bitmap has no row, or when it is too big for exact
    /// float coordinates.
    pub fn try_from_bitmap(bitmap: Bitmap) -> (r: Result<PreparedDataMatrix, PreparationError>)
        requires
            bitmap.wf(),
        ensures
            bitmap.spec_height() == 0 ==> r == Err::<PreparedDataMatrix, PreparationError>(PreparationError::EmptyBitmap),
            bitmap.spec_height() > 0 && (bitmap.spec_width() > MAX_EXACT_F32_INTEGER
                || bitmap.spec_height() > MAX_EXACT_F32_INTEGER) ==> r == Err::<PreparedDataMatrix, PreparationError>(
                PreparationError::DimensionsTooLarge {
                    width: bitmap.spec_width() as usize,
                    height: bitmap.spec_height() as usize,
                    maximum: MAX_EXACT_F32_INTEGER,
                }),
            bitmap.spec_height() > 0 && bitmap.spec_width() <= MAX_EXACT_F32_INTEGER
                && bitmap.spec_height() <= MAX_EXACT_F32_INTEGER ==> (r matches Ok(p) && p.wf()
                && p.spec_bitmap() == bitmap),
    {
        let (width, height) = bitmap.dimensions();
        if height == 0 {
            return Err(PreparationError::EmptyBitmap);
        }
        if width > MAX_EXACT_F32_INTEGER || height > MAX_EXACT_F32_INTEGER {
            return Err(PreparationError::DimensionsTooLarge { width, height, maximum: MAX_EXACT_F32_INTEGER });
        }
        Ok(PreparedDataMatrix::from_valid_bitmap(bitmap))
    }

    /// Computes the runs of the bitmap.
    fn from_valid_bitmap(bitmap: Bitmap) -> (r: PreparedDataMatrix)
        requires
            bitmap.wf(),
        ensures
            r.wf(),
            r.spec_bitmap() == bitmap,
    {
        let dark_runs = bitmap.dark_runs();
        PreparedDataMatrix { bitmap, dark_runs }
    }

    /// The prepared bitmap.
    pub fn bitmap(&self) -> (r: &Bitmap)
        ensures
            *r == self.spec_bitmap(),
    {
        &self.bitmap
    }

    /// `(width, height)` of the bitmap, quiet zone excluded.
    pub fn dimensions(&self) -> (r: (usize, usize))
        requires
            self.wf(),
        ensures
            r.0 == self.spec_bitmap().spec_width(),
            r.1 == self.spec_bitmap().spec_height(),
    {
        self.bitmap.dimensions()
    }

    /// The horizontal runs of dark modules, computed in advance.
    pub fn dark_runs(&self) -> (r: &[ModuleRun])
        ensures
            r@ == self.spec_dark_runs(),
    {
        self.dark_runs.as_slice()
    }
}

/// The error for a quiet zone of zero modules.
#[derive(Clone, Copy, Debug, PartialEq, Eq, Structural)]
pub struct QuietZoneError {
    supplied: u8,
}

impl QuietZoneError {
    /// The number of modules that was given.
    pub closed spec fn spec_supplied(&self) -> u8 {
        self.supplied
    }

    /// The number of modules that was given.
    pub fn supplied(self) -> (r: u8)
        ensures
            r == self.spec_supplied(),
    {
        self.supplied
    }
}

/// The width of the quiet zone around the Data Matrix, in modules; at least one.
#[derive(Clone, Copy, Debug, PartialEq, Eq, Hash, Structural)]
pub struct QuietZone(u8);

impl QuietZone {
    /// The number of modules.
    pub closed spec fn spec_modules(&self) -> u8 {
        self.0
    }

    /// A quiet zone has at least one module.
    pub closed spec fn wf(&self) -> bool {
        self.0 >= 1
    }

    /// The smallest quiet zone that the specification allows: one module.
    pub fn minimum() -> (r: QuietZone)
        ensures
            r.wf(),
            r.spec_modules() == 1,
    {
        QuietZone(1)
    }

    /// A quiet zone of `modules` modules.
    ///
    /// # Errors
    ///
    /// Fails when `modules` is zero.
    pub fn new(modules: u8) -> (r: Result<QuietZone, QuietZoneError>)
        ensures
            modules == 0 ==> (r matches Err(e) && e.spec_supplied() == 0),
            modules > 0 ==> (r matches Ok(q) && q.wf() && q.spec_modules() == modules),
    {
        if modules == 0 {
            return Err(QuietZoneError { supplied: 0 });
        }
        Ok(QuietZone(modules))
    }

    /// The width of the quiet zone in modules.
    pub fn modules(self) -> (r: u8)
        ensures
            r == self.spec_modules(),
    {
        self.0
    }
}

impl Default for QuietZone {
    fn default() -> (r: QuietZone)
        ensures
            r.wf(),
            r.spec_modules() == 1,
    {
        QuietZone::minimum()
    }
}

/// A stateless element that shows a Data Matrix: the prepared symbol with
/// its colours (as `0xRRGGBB`), quiet zone, smallest module size in device
/// pixels and accessibility label.
///
/// A renderer fits the symbol into the available bounds with the largest
/// whole number of device pixels per module, keeps its aspect ratio and
/// centres it; when the bounds cannot give the smallest module size it draws
/// nothing rather than a blurred symbol that cannot be scanned.
pub struct DataMatrixElement {
    id: String,
    prepared: PreparedDataMatrix,
    foreground: u32,
    background: u32,
    quiet_zone: QuietZone,
    minimum_module_pixels: u16,
    aria_label: String,
}

impl DataMatrixElement {
    /// The identifier of the element.
    pub closed spec fn spec_id(&self) -> Seq<char> {
        self.id@
    }

    /// The prepared symbol.
    pub closed spec fn spec_prepared(&self) -> PreparedDataMatrix {
        self.prepared
    }

    /// The colour of the dark modules.
    pub closed spec fn spec_foreground(&self) -> u32 {
        self.foreground
    }

    /// The colour of the background, quiet zone included.
    pub closed spec fn spec_background(&self) -> u32 {
        self.background
    }

    /// The quiet zone.
    pub closed spec fn spec_quiet_zone(&self) -> QuietZone {
        self.quiet_zone
    }

    /// The smallest size of a module in device pixels.
    pub closed spec fn spec_minimum_module_pixels(&self) -> u16 {
        self.minimum_module_pixels
    }

    /// The accessibility label.
    pub closed spec fn spec_aria_label(&self) -> Seq<char> {
        self.aria_label@
    }

    /// A new element for a prepared Data Matrix: black on white, a quiet
    /// zone of one module, at least one device pixel per module, and the
    /// label "Data Matrix kodu".
    pub fn new(id: String, prepared: PreparedDataMatrix) -> (r: DataMatrixElement)
        ensures
            r.spec_id() == id@,
            r.spec_prepared() == prepared,
            r.spec_foreground() == 0,
            r.spec_background() == 0xffffff,
            r.spec_quiet_zone().spec_modules() == 1,
            r.spec_minimum_module_pixels() == 1,
    {
        DataMatrixElement {
            id,
            prepared,
            foreground: 0x000000,
            background: 0xffffff,
            quiet_zone: QuietZone::minimum(),
            minimum_module_pixels: 1,
            aria_label: String::from_str("Data Matrix kodu"),
        }
    }

    /// Prepares an encoded Data Matrix and makes an element of it.
    ///
    /// This prepares the bitmap, so it should not run for every frame;
    /// dynamic views keep the [PreparedDataMatrix] in their state.
    pub fn from_data_matrix(id: String, data_matrix: &DataMatrix) -> (r: DataMatrixElement)
        requires
            data_matrix.wf(),
        ensures
            r.spec_id() == id@,
            r.spec_prepared().wf(),
            r.spec_foreground() == 0,
            r.spec_background() == 0xffffff,
            r.spec_quiet_zone().spec_modules() == 1,
            r.spec_minimum_module_pixels() == 1,
    {
        DataMatrixElement::new(id, PreparedDataMatrix::new(data_matrix))
    }

    /// Changes the colour of the dark modules.
    pub fn with_foreground(self, foreground: u32) -> (r: DataMatrixElement)
        ensures
            r.spec_foreground() == foreground,
            r.spec_background() == self.spec_background(),
            r.spec_quiet_zone() == self.spec_quiet_zone(),
            r.spec_minimum_module_pixels() == self.spec_minimum_module_pixels(),
            r.spec_id() == self.spec_id(),
            r.spec_aria_label() == self.spec_aria_label(),
    {
        DataMatrixElement { foreground, ..self }
    }

    /// Changes the colour of the background, quiet zone included.
    pub fn with_background(self, background: u32) -> (r: DataMatrixElement)
        ensures
            r.spec_background() == background,
            r.spec_foreground() == self.spec_foreground(),
            r.spec_quiet_zone() == self.spec_quiet_zone(),
            r.spec_minimum_module_pixels() == self.spec_minimum_module_pixels(),
            r.spec_id() == self.spec_id(),
            r.spec_aria_label() == self.spec_aria_label(),
    {
        DataMatrixElement { background, ..self }
    }

    /// Changes the width of the quiet zone.
    pub fn with_quiet_zone(self, quiet_zone: QuietZone) -> (r: DataMatrixElement)
        ensures
            r.spec_quiet_zone() == quiet_zone,
            r.spec_foreground() == self.spec_foreground(),
            r.spec_background() == self.spec_background(),
            r.spec_minimum_module_pixels() == self.spec_minimum_module_pixels(),
            r.spec_id() == self.spec_id(),
            r.spec_aria_label() == self.spec_aria_label(),
    {
        DataMatrixElement { quiet_zone, ..self }
    }

    /// Changes the smallest size of a module in device pixels; `minimum`
    /// must not be zero.
    pub fn with_minimum_module_pixels(self, minimum: u16) -> (r: DataMatrixElement)
        requires
            minimum >= 1,
        ensures
            r.spec_minimum_module_pixels() == minimum,
            r.spec_foreground() == self.spec_foreground(),
            r.spec_background() == self.spec_background(),
            r.spec_quiet_zone() == self.spec_quiet_zone(),
            r.spec_id() == self.spec_id(),
            r.spec_aria_label() == self.spec_aria_label(),
    {
        DataMatrixElement { minimum_module_pixels: minimum, ..self }
    }

    /// Changes the accessibility label.
    ///
    /// Encoded data, which may be sensitive, is not added to the default label.
    pub fn with_aria_label(self, label: String) -> (r: DataMatrixElement)
        ensures
            r.spec_aria_label() == label@,
            r.spec_foreground() == self.spec_foreground(),
            r.spec_background() == self.spec_background(),
            r.spec_quiet_zone() == self.spec_quiet_zone(),
            r.spec_minimum_module_pixels() == self.spec_minimum_module_pixels(),
            r.spec_id() == self.spec_id(),
    {
        DataMatrixElement { aria_label: label, ..self }
    }
}

} // verus!
