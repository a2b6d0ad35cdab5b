//! Code generation: renders a statement sequence as one target-language
//! function, an entry-point wrapper around one indented line per statement.

use crate::expr::{exprs_view, render, Expr, ExprModel};
use vstd::prelude::*;

verus! {

/// One indented line per statement: the statement's rendered text followed
/// by a newline.
pub open spec fn gen_lines(stmts: Seq<ExprModel>) -> Seq<char>
    decreases stmts.len(),
{
    if stmts.len() == 0 {
        Seq::empty()
    } else {
        "    "@ + render(stmts[0]) + "\n"@ + gen_lines(stmts.drop_first())
    }
}

/// The whole generated text: the entry-point function wrapping the
/// statement lines.
pub open spec fn gen_program(stmts: Seq<ExprModel>) -> Seq<char> {
    "fn main() {\n"@ + gen_lines(stmts) + "}\n"@
}

/// Render the statement sequence as the complete target-language source
/// text.  The result is exactly `gen_program` of the statements, so two runs
/// on the same statements produce identical text.
#[verifier::loop_isolation(false)]
pub fn generate_rust_source(ast: &[Expr]) -> (r: String)
    ensures
        r@ == gen_program(exprs_view(ast@)),
{
    let ghost stmts = exprs_view(ast@);
    let mut code = String::new();
    code.append("fn main() {\n");
    let mut i: usize = 0;
    proof {
        assert(stmts.skip(0) =~= stmts);
    }
    while i < ast.len()
        invariant
            i <= ast.len(),
            stmts.len() == ast.len(),
            code@ + gen_lines(stmts.skip(i as int)) == "fn main() {\n"@ + gen_lines(stmts),
        decreases ast.len() - i,
    {
        let line = ast[i].generate_rust_code();
        proof {
            let rest = stmts.skip(i as int);
            assert(rest[0] == ast@[i as int]@);
            assert(rest.drop_first() =~= stmts.skip(i as int + 1));
            assert(code@ + ("    "@ + line@ + "\n"@) + gen_lines(stmts.skip(i as int + 1)) =~= code@
                + gen_lines(rest));
        }
        code.append("    ");
        code.append(line.as_str());
        code.append("\n");
        i = i + 1;
    }
    proof {
        assert(gen_lines(stmts.skip(ast.len() as int)) =~= Seq::<char>::empty());
        assert(code@ =~= code@ + gen_lines(stmts.skip(ast.len() as int)));
    }
    code.append("}\n");
    proof {
        assert(code@ =~= gen_program(stmts));
    }
    code
}

/// Law: generation is deterministic, so re-running it on the same statement
/// sequence yields identical output text both times.
pub proof fn lemma_generate_deterministic(stmts: Seq<ExprModel>, a: Seq<char>, b: Seq<char>)
    requires
        a == gen_program(stmts),
        b == gen_program(stmts),
    ensures
        a == b,
{
}

} // verus!
