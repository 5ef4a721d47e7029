//! Error vocabulary shared by the kernel's arithmetic checks.

use vstd::prelude::*;

verus! {

/// The arithmetic operation a failed overflow check was about, so the
/// error can name it.
#[derive(Debug, Clone, Copy, PartialEq, Eq, Structural)]
pub enum ArithmeticOperation {
    Add,
    Sub,
    Mul,
    Div,
    Mod,
    Pow,
}

impl ArithmeticOperation {
    /// The operator sign this operation is written with.
    pub fn symbol(&self) -> (r: &'static str)
        ensures
            (match *self {
                ArithmeticOperation::Add => r@ == "+"@,
                ArithmeticOperation::Sub => r@ == "-"@,
                ArithmeticOperation::Mul => r@ == "*"@,
                ArithmeticOperation::Div => r@ == "/"@,
                ArithmeticOperation::Mod => r@ == "%"@,
                ArithmeticOperation::Pow => r@ == "**"@,
            }),
    {
        match self {
            ArithmeticOperation::Add => "+",
            ArithmeticOperation::Sub => "-",
            ArithmeticOperation::Mul => "*",
            ArithmeticOperation::Div => "/",
            ArithmeticOperation::Mod => "%",
            ArithmeticOperation::Pow => "**",
        }
    }
}

} // verus!
