//! Emission: the instruction list becomes C-like output text.
//!
//! The emitter writes a fixed prologue (includes, a type alias and the
//! opening of the program entry point), then stringifies each
//! instruction in order, then closes the entry point.  Expressions are
//! reproduced as infix text by an in-order traversal, with no
//! parentheses reinserted: the tree already encodes the grouping, and
//! the target language's own precedence for `+ - *` matches the
//! source's.

use vstd::prelude::*;
use vstd::string::StringExecFns;

use crate::ast::{AstExpression, SpecExpr};
use crate::ir::{irs_view, SpecIr, IR};
use crate::tokenizer::BinaryOp;

verus! {

/// Character that denotes an operator in emitted text.
pub open spec fn op_char(op: BinaryOp) -> char {
    match op {
        BinaryOp::Plus => '+',
        BinaryOp::Minus => '-',
        BinaryOp::Star => '*',
    }
}

/// Infix text of an expression: left operand, one-character operator,
/// right operand; leaves are their own text.
pub open spec fn spec_emit_expr(e: SpecExpr) -> Seq<char>
    decreases e,
{
    match e {
        SpecExpr::Number { raw, flags } => raw,
        SpecExpr::Identifier { name } => name,
        SpecExpr::BinaryOperation { left, operator, right } => spec_emit_expr(*left) + seq![
            op_char(operator),
        ] + spec_emit_expr(*right),
    }
}

/// Output line of one instruction.
pub open spec fn spec_emit_ir(i: SpecIr) -> Seq<char> {
    match i {
        SpecIr::DefineVariable { name, t, value } => t + " "@ + name + " = "@ + spec_emit_expr(
            value,
        ) + ";\n"@,
        SpecIr::Exit { value } => "exit("@ + spec_emit_expr(value) + ");\n"@,
    }
}

/// Output lines of an instruction sequence, in order.
pub open spec fn spec_emit_irs(xs: Seq<SpecIr>) -> Seq<char>
    decreases xs.len(),
{
    if xs.len() == 0 {
        Seq::empty()
    } else {
        spec_emit_ir(xs[0]) + spec_emit_irs(xs.skip(1))
    }
}

/// Fixed text opening every output program.
pub open spec fn spec_prologue() -> Seq<char> {
    "#include <stdlib.h>\n"@ + "#include <stdint.h>\n"@ + "#define u64 uint64_t\n"@
        + "int main() {\n"@
}

/// Fixed text closing every output program.
pub open spec fn spec_epilogue() -> Seq<char> {
    "}\n"@
}

/// The whole output text of a program.
pub open spec fn spec_compile(xs: Seq<SpecIr>) -> Seq<char> {
    spec_prologue() + spec_emit_irs(xs) + spec_epilogue()
}

impl AstExpression {
    /// Infix text of the expression, exactly [`spec_emit_expr`] of it.
    pub fn to_text(&self) -> (r: String)
        ensures
            r@ == spec_emit_expr(self@),
        decreases *self,
    {
        match self {
            AstExpression::Number { raw, flags: _ } => raw.clone(),
            AstExpression::Identifier { name } => name.clone(),
            AstExpression::BinaryOperation { left, operator, right } => {
                let mut out = left.to_text();
                let op_str = match operator {
                    BinaryOp::Plus => "+",
                    BinaryOp::Minus => "-",
                    BinaryOp::Star => "*",
                };
                proof {
                    reveal_strlit("+");
                    reveal_strlit("-");
                    reveal_strlit("*");
                    assert(op_str@ =~= seq![op_char(*operator)]);
                }
                out.append(op_str);
                let rhs = right.to_text();
                out.append(rhs.as_str());
                out
            },
        }
    }
}

/// Emitter over one lowered program, consumed from the front.
pub struct CBackend {
    program: Vec<IR>,
}

impl CBackend {
    /// Emitter over `program`.
    pub fn new(program: Vec<IR>) -> (r: Self)
        ensures
            r.spec_program() == irs_view(program@),
    {
        Self { program }
    }

    /// Instructions not yet emitted.
    pub closed spec fn spec_program(&self) -> Seq<SpecIr> {
        irs_view(self.program@)
    }

    /// Emits the whole output program, exactly as [`spec_compile`]
    /// says: prologue, one line per instruction in order, epilogue.
    #[verifier::loop_isolation(false)]
    pub fn compile(self) -> (r: String)
        ensures
            r@ == spec_compile(self.spec_program()),
    {
        let mut this = self;
        let ghost xs0 = this.spec_program();
        let mut out = String::new();
        out.append("#include <stdlib.h>\n");
        out.append("#include <stdint.h>\n");
        out.append("#define u64 uint64_t\n");
        out.append("int main() {\n");
        while this.program.len() > 0
            invariant
                out@ + spec_emit_irs(this.spec_program()) == spec_prologue() + spec_emit_irs(xs0),
            decreases this.spec_program().len(),
        {
            let ghost cur = this.spec_program();
            let ghost out0 = out@;
            let inst = match this.eat() {
                Some(i) => i,
                None => {
                    proof {
                        assert(false);
                    }
                    return out;
                },
            };
            match inst {
                IR::DefineVariable { name, t, value } => {
                    out.append(t.as_str());
                    out.append(" ");
                    out.append(name.as_str());
                    out.append(" = ");
                    let vtext = value.to_text();
                    out.append(vtext.as_str());
                    out.append(";\n");
                },
                IR::Exit { value } => {
                    out.append("exit(");
                    let vtext = value.to_text();
                    out.append(vtext.as_str());
                    out.append(");\n");
                },
            }
            proof {
                assert(out@ =~= out0 + spec_emit_ir(cur[0]));
                assert(out0 + (spec_emit_ir(cur[0]) + spec_emit_irs(cur.skip(1))) =~= (out0
                    + spec_emit_ir(cur[0])) + spec_emit_irs(cur.skip(1)));
            }
        }
        out.append("}\n");
        proof {
            assert(spec_emit_irs(this.spec_program()) =~= Seq::<char>::empty());
            assert(out@ =~= spec_compile(xs0));
        }
        out
    }

    fn eat(&mut self) -> (r: Option<IR>)
        ensures
            match r {
                Some(i) => {
                    &&& old(self).spec_program().len() > 0
                    &&& i@ == old(self).spec_program()[0]
                    &&& final(self).spec_program() == old(self).spec_program().skip(1)
                },
                None => {
                    &&& old(self).spec_program().len() == 0
                    &&& final(self).spec_program() == old(self).spec_program()
                },
            },
    {
        if self.program.len() > 0 {
            let i = self.program.remove(0);
            proof {
                assert(irs_view(self.program@) =~= irs_view(old(self).program@).skip(1));
            }
            Some(i)
        } else {
            None
        }
    }
}

} // verus!
