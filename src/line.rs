use vstd::prelude::*;

verus! {

/// One input line: its 1-based index and its text.
#[derive(Debug, PartialEq)]
pub struct Line(pub usize, pub String);

impl Default for Line {
    fn default() -> (r: Line)
        ensures
            r.0 == 0,
            r.1@ == Seq::<char>::empty(),
    {
        Line(0, String::new())
    }
}

} // verus!
