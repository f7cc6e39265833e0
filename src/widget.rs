use vstd::prelude::*;

verus! {

/// UI widget static identifier, unique for a specific site in source code.
#[derive(Copy, Clone, Debug, PartialEq)]
pub struct WidgetId {
    pub filename: &'static str,
    pub line: u32,
    pub column: u32,
}

impl WidgetId {
    /// The identifier of the site at `filename`, `line`, `column`.
    pub fn new(filename: &'static str, line: u32, column: u32) -> (r: WidgetId)
        ensures
            r.filename@ == filename@,
            r.line == line,
            r.column == column,
    {
        WidgetId { filename, line, column }
    }

    /// An identifier that names no site in source code.
    pub fn dummy() -> (r: WidgetId)
        ensures
            r.filename@ == "n/a"@,
            r.line == 666666,
            r.column == 666666,
    {
        WidgetId { filename: "n/a", line: 666666, column: 666666 }
    }
}

/// Type of effect signaled by making a visible entity blink for a moment.
#[derive(Copy, Clone, PartialEq, Eq, Structural, Debug)]
pub enum Blink {
    /// The entity was damaged.
    Damaged,
    /// The entity is a threat that halted an automated activity.
    Threat,
}

} // verus!
