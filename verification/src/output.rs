//! The output formats a caller can ask for; rendering itself happens
//! outside the library.

use vstd::prelude::*;

verus! {

/// The output form a caller asks for; the renderers themselves live
/// with the I/O around the library.
#[derive(Clone, Copy, Debug, PartialEq, Eq, Structural)]
pub enum OutputFormat {
    Text,
    Json,
    Dot,
    Markdown,
}

/// Carries the chosen output format to the renderers.
pub struct OutputWriter {
    pub format: OutputFormat,
}

impl OutputWriter {
    pub fn new(format: OutputFormat) -> (r: Self)
        ensures
            r.format == format,
    {
        OutputWriter { format }
    }

    /// The format this writer was built with.
    pub fn output_format(&self) -> (r: OutputFormat)
        ensures
            r == self.format,
    {
        self.format
    }
}

} // verus!
