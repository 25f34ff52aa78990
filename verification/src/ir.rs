//! Lowering: statement nodes to a flat, ordered instruction list.
//!
//! Lowering is total and structural: each `let` statement becomes one
//! [`IR::DefineVariable`], each `exit` statement one [`IR::Exit`], in
//! source order, with the expression trees carried over unevaluated.

use vstd::prelude::*;

use crate::ast::{stmts_view, AstExpression, AstProgram, AstStatement, SpecExpr, SpecStatement};

verus! {

/// Flat intermediate instruction; no nesting and no basic blocks.
#[derive(Debug, PartialEq)]
pub enum IR {
    DefineVariable { name: String, t: String, value: AstExpression },
    Exit { value: AstExpression },
}

/// Mathematical abstraction of an [`IR`] instruction.
pub ghost enum SpecIr {
    DefineVariable { name: Seq<char>, t: Seq<char>, value: SpecExpr },
    Exit { value: SpecExpr },
}

impl View for IR {
    type V = SpecIr;

    open spec fn view(&self) -> SpecIr {
        match self {
            IR::DefineVariable { name, t, value } => SpecIr::DefineVariable {
                name: name@,
                t: t@,
                value: value@,
            },
            IR::Exit { value } => SpecIr::Exit { value: value@ },
        }
    }
}

/// Abstraction of an instruction sequence.
pub open spec fn irs_view(xs: Seq<IR>) -> Seq<SpecIr> {
    xs.map_values(|x: IR| x@)
}

/// What lowering one statement yields.
pub open spec fn spec_lower_stmt(s: SpecStatement) -> SpecIr {
    match s {
        SpecStatement::Let { value, name, t } => SpecIr::DefineVariable { name, t, value },
        SpecStatement::Exit { value } => SpecIr::Exit { value },
    }
}

/// What lowering a program yields: one instruction per statement, in
/// the statements' order.
pub open spec fn spec_lower(ss: Seq<SpecStatement>) -> Seq<SpecIr> {
    ss.map_values(|s: SpecStatement| spec_lower_stmt(s))
}

/// Lowers one parsed program, consuming its statements from the front.
pub struct IrGenerator {
    program: AstProgram,
}

impl IrGenerator {
    /// Generator over `program`.
    pub fn new(program: AstProgram) -> (r: Self)
        ensures
            r.spec_program() == stmts_view(program@),
    {
        Self { program }
    }

    /// Statements not yet lowered.
    pub closed spec fn spec_program(&self) -> Seq<SpecStatement> {
        stmts_view(self.program@)
    }

    /// Lowers the whole program, exactly as [`spec_lower`] says.
    #[verifier::loop_isolation(false)]
    pub fn generate(self) -> (r: Vec<IR>)
        ensures
            irs_view(r@) == spec_lower(self.spec_program()),
    {
        let mut this = self;
        let ghost ss0 = this.spec_program();
        let mut ir: Vec<IR> = Vec::new();
        while this.program.len() > 0
            invariant
                spec_lower(ss0) == irs_view(ir@) + spec_lower(this.spec_program()),
            decreases this.spec_program().len(),
        {
            let ghost cur = this.spec_program();
            let ghost ir0 = ir@;
            let stmt = match this.eat() {
                Some(s) => s,
                None => {
                    proof {
                        assert(false);
                    }
                    return ir;
                },
            };
            match stmt {
                AstStatement::Exit { value } => {
                    ir.push(IR::Exit { value });
                },
                AstStatement::Let { value, name, t } => {
                    ir.push(IR::DefineVariable { value, t, name });
                },
            }
            proof {
                assert(irs_view(ir@) =~= irs_view(ir0) + seq![spec_lower_stmt(cur[0])]);
                assert(spec_lower(cur) =~= seq![spec_lower_stmt(cur[0])] + spec_lower(cur.skip(1)));
                assert(irs_view(ir0) + (seq![spec_lower_stmt(cur[0])] + spec_lower(cur.skip(1)))
                    =~= (irs_view(ir0) + seq![spec_lower_stmt(cur[0])]) + spec_lower(cur.skip(1)));
            }
        }
        proof {
            assert(irs_view(ir@) + Seq::<SpecIr>::empty() =~= irs_view(ir@));
            assert(spec_lower(this.spec_program()) =~= Seq::<SpecIr>::empty());
        }
        ir
    }

    fn peek(&self) -> (r: Option<&AstStatement>)
        ensures
            match r {
                Some(s) => self.spec_program().len() > 0 && s@ == self.spec_program()[0],
                None => self.spec_program().len() == 0,
            },
    {
        if self.program.len() > 0 {
            Some(&self.program[0])
        } else {
            None
        }
    }

    fn eat(&mut self) -> (r: Option<AstStatement>)
        ensures
            match r {
                Some(s) => {
                    &&& old(self).spec_program().len() > 0
                    &&& s@ == old(self).spec_program()[0]
                    &&& final(self).spec_program() == old(self).spec_program().skip(1)
                },
                None => {
                    &&& old(self).spec_program().len() == 0
                    &&& final(self).spec_program() == old(self).spec_program()
                },
            },
    {
        if self.program.len() > 0 {
            let s = self.program.remove(0);
            proof {
                assert(stmts_view(self.program@) =~= stmts_view(old(self).program@).skip(1));
            }
            Some(s)
        } else {
            None
        }
    }
}

} // verus!
