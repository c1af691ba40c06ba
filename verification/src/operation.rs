//! One arithmetic move of the game: two operands and an operator.

use vstd::prelude::*;
use vstd::string::StringExecFns;
use crate::text::{decimal, push_decimal};

verus! {

/// The four operators of the game.
#[derive(Clone, Copy, Debug, PartialEq, Eq, Structural)]
pub enum OperationType {
    Addition,
    Subtraction,
    Multiplication,
    Division,
}

impl OperationType {
    /// The sign of the operator.
    pub open spec fn sign(self) -> Seq<char> {
        match self {
            OperationType::Addition => "+"@,
            OperationType::Subtraction => "-"@,
            OperationType::Multiplication => "×"@,
            OperationType::Division => "÷"@,
        }
    }

    /// The sign with which the operator is written.
    pub fn symbol(&self) -> (r: &'static str)
        ensures
            r@ == self.sign(),
    {
        match self {
            OperationType::Addition => "+",
            OperationType::Subtraction => "-",
            OperationType::Multiplication => "×",
            OperationType::Division => "÷",
        }
    }
}

/// A binary operation on two numbers.
///
/// [`Operation::new`] stores the larger operand first, so that subtraction and
/// division are always read as `larger - smaller` and `larger ÷ smaller`.
#[derive(Clone, Copy, Debug)]
pub struct Operation {
    pub op1: u32,
    pub op2: u32,
    pub op_type: OperationType,
}

impl Operation {
    /// The operation on `a` and `b` with the larger operand first.
    pub open spec fn normalized(a: u32, b: u32, op_type: OperationType) -> Operation {
        if b > a {
            Operation { op1: b, op2: a, op_type }
        } else {
            Operation { op1: a, op2: b, op_type }
        }
    }

    /// The first operand is not smaller than the second.
    pub open spec fn wf(self) -> bool {
        self.op1 >= self.op2
    }

    /// Whether the rules of the game allow this operation.
    ///
    /// Addition and multiplication always are. Subtraction must leave a
    /// positive number. Division must leave no remainder, and nothing is
    /// divided by zero.
    pub open spec fn legal(self) -> bool {
        match self.op_type {
            OperationType::Addition | OperationType::Multiplication => true,
            OperationType::Subtraction => self.op1 > self.op2,
            OperationType::Division => self.op2 != 0 && self.op1 % self.op2 == 0,
        }
    }

    /// The number that the operation produces, as a mathematical integer.
    pub open spec fn value(self) -> int {
        match self.op_type {
            OperationType::Addition => self.op1 + self.op2,
            OperationType::Subtraction => self.op1 - self.op2,
            OperationType::Multiplication => self.op1 * self.op2,
            OperationType::Division => self.op1 as int / self.op2 as int,
        }
    }

    /// The result of a legal operation whose value fits in a `u32`.
    pub open spec fn outcome(self) -> Option<u32> {
        if self.legal() && 0 <= self.value() <= u32::MAX {
            Some(self.value() as u32)
        } else {
            None
        }
    }

    /// The operation as it is written in a trace: both operands, the sign
    /// between them, and the result, or `X` where there is none.
    pub open spec fn text(self) -> Seq<char> {
        let left = decimal(self.op1 as nat) + " "@ + self.op_type.sign() + " "@ + decimal(
            self.op2 as nat,
        ) + " = "@;
        match self.outcome() {
            Some(v) => left + decimal(v as nat),
            None => left + "X"@,
        }
    }

    /// The operation on two operands, given in either order.
    pub fn new(op1: u32, op2: u32, op_type: OperationType) -> (r: Self)
        ensures
            r == Self::normalized(op1, op2, op_type),
            r.wf(),
    {
        if op2 > op1 {
            Self { op1: op2, op2: op1, op_type }
        } else {
            Self { op1, op2, op_type }
        }
    }

    /// Whether the rules of the game allow the operation.
    pub fn is_possible(&self) -> (r: bool)
        ensures
            r == self.legal(),
    {
        match self.op_type {
            OperationType::Addition | OperationType::Multiplication => true,
            OperationType::Subtraction => self.op1 > self.op2,
            OperationType::Division => self.op2 != 0 && self.op1 % self.op2 == 0,
        }
    }

    /// The number that the operation produces: `None` where the operation is
    /// not legal, and where the number would not fit in a `u32`.
    pub fn result(&self) -> (r: Option<u32>)
        ensures
            r == self.outcome(),
    {
        match self.op_type {
            OperationType::Addition => self.op1.checked_add(self.op2),
            OperationType::Subtraction => {
                if self.op1 > self.op2 {
                    Some(self.op1 - self.op2)
                } else {
                    None
                }
            },
            OperationType::Multiplication => self.op1.checked_mul(self.op2),
            OperationType::Division => {
                if self.op2 != 0 && self.op1 % self.op2 == 0 {
                    Some(self.op1 / self.op2)
                } else {
                    None
                }
            },
        }
    }

    /// Writes the operation at the end of `out`.
    pub fn write_to(&self, out: &mut String)
        ensures
            final(out)@ == old(out)@ + self.text(),
    {
        push_decimal(out, self.op1 as u64);
        out.append(" ");
        out.append(self.op_type.symbol());
        out.append(" ");
        push_decimal(out, self.op2 as u64);
        out.append(" = ");
        match self.result() {
            Some(v) => push_decimal(out, v as u64),
            None => out.append("X"),
        }
    }

    /// The operation as text, such as `7 × 8 = 56`.
    pub fn render(&self) -> (r: String)
        ensures
            r@ == self.text(),
    {
        let mut out = String::new();
        self.write_to(&mut out);
        out
    }
}

/// Subtracting a number from itself is never legal, division is legal exactly
/// when the larger operand is a multiple of the smaller (and never by zero),
/// addition and multiplication always are, and the order in which the two
/// operands are given makes no difference: the larger is stored first.
pub proof fn law_operation_legality(a: u32, b: u32)
    ensures
        !Operation::normalized(a, a, OperationType::Subtraction).legal(),
        Operation::normalized(a, b, OperationType::Subtraction).legal() <==> a != b,
        ({
            let larger = if a >= b { a } else { b };
            let smaller = if a >= b { b } else { a };
            let division = Operation::normalized(a, b, OperationType::Division);
            &&& smaller != 0 ==> (division.legal() <==> larger % smaller == 0)
            &&& smaller == 0 ==> !division.legal()
        }),
        Operation::normalized(a, b, OperationType::Addition).legal(),
        Operation::normalized(a, b, OperationType::Multiplication).legal(),
        forall|t: OperationType|
            (#[trigger] Operation::normalized(a, b, t)).op1 >= Operation::normalized(a, b, t).op2,
        forall|t: OperationType|
            #[trigger] Operation::normalized(a, b, t) == Operation::normalized(b, a, t),
{
}

/// An operation has a result exactly if it is legal and the number that it
/// produces fits in a `u32`; the result is then that number. Subtraction and
/// division never lead out of the range that their operands are in.
pub proof fn law_operation_result(op: Operation)
    ensures
        op.outcome() is Some <==> op.legal() && op.value() <= u32::MAX,
        op.outcome() is Some ==> op.outcome().unwrap() == op.value(),
        op.op_type == OperationType::Subtraction || op.op_type == OperationType::Division
            ==> (op.outcome() is Some <==> op.legal()),
{
    if op.legal() && op.op_type == OperationType::Division {
        assert(0 <= op.op1 as int / op.op2 as int <= op.op1) by (nonlinear_arith)
            requires
                op.op2 > 0,
                op.op1 >= 0,
        ;
    }
}

} // verus!
