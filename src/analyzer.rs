use vstd::prelude::*;

use crate::expression::Expression;

verus! {

/// The semantic pass over a parsed program. It accepts the statements and,
/// as yet, checks nothing about them.
pub struct Analyzer {
    expressions: Vec<Expression>,
}

impl Analyzer {
    /// The statements under analysis.
    pub closed spec fn program(&self) -> Seq<Expression> {
        self.expressions@
    }

    pub fn new(expressions: Vec<Expression>) -> (r: Analyzer)
        ensures
            r.program() == expressions@,
    {
        Analyzer { expressions }
    }

    /// Analyses the program; no rule is checked yet, so nothing changes.
    pub fn analyze_ast(&mut self)
        ensures
            final(self).program() == old(self).program(),
    {
    }
}

} // verus!
