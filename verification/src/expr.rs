//! The abstract syntax tree and its rendering into target-language text.
//!
//! `ExprModel` is the mathematical shape of an `Expr`; `render` says, at the
//! specification level, what text each node turns into.  The executable
//! `generate_rust_code` is proved to produce exactly that text.

use vstd::prelude::*;

verus! {

/// One parsed expression or statement.
#[derive(Debug, PartialEq, Eq)]
pub enum Expr {
    Number(i64),
    Identifier(String),
    BinaryOp(Box<Expr>, String, Box<Expr>),
    Assignment(String, Box<Expr>),
}

/// The mathematical shape of an `Expr`.
pub enum ExprModel {
    Number(int),
    Identifier(Seq<char>),
    BinaryOp(Box<ExprModel>, Seq<char>, Box<ExprModel>),
    Assignment(Seq<char>, Box<ExprModel>),
}

/// The model of an `Expr`, child by child.
pub open spec fn expr_view(e: Expr) -> ExprModel
    decreases e,
{
    match e {
        Expr::Number(value) => ExprModel::Number(value as int),
        Expr::Identifier(name) => ExprModel::Identifier(name@),
        Expr::BinaryOp(left, op, right) => ExprModel::BinaryOp(
            Box::new(expr_view(*left)),
            op@,
            Box::new(expr_view(*right)),
        ),
        Expr::Assignment(name, value) => ExprModel::Assignment(name@, Box::new(expr_view(*value))),
    }
}

impl View for Expr {
    type V = ExprModel;

    open spec fn view(&self) -> ExprModel {
        expr_view(*self)
    }
}

pub open spec fn exprs_view(es: Seq<Expr>) -> Seq<ExprModel> {
    es.map_values(|e: Expr| e@)
}

/// Relies on `String::push`: appends the given character to the end of the
/// string.
pub assume_specification[ String::push ](s: &mut String, c: char)
    ensures
        final(s)@ == old(s)@.push(c),
;

/// The character for one decimal digit.
pub open spec fn digit_char(d: int) -> char {
    if d == 0 {
        '0'
    } else if d == 1 {
        '1'
    } else if d == 2 {
        '2'
    } else if d == 3 {
        '3'
    } else if d == 4 {
        '4'
    } else if d == 5 {
        '5'
    } else if d == 6 {
        '6'
    } else if d == 7 {
        '7'
    } else if d == 8 {
        '8'
    } else {
        '9'
    }
}

/// The decimal text of a non-negative integer, most significant digit first.
pub open spec fn dec_nat(n: int) -> Seq<char>
    decreases n,
        when n >= 0
{
    if n < 10 {
        seq![digit_char(n)]
    } else {
        dec_nat(n / 10).push(digit_char(n % 10))
    }
}

/// The decimal text of an integer, with a leading minus sign when negative.
pub open spec fn dec_int(v: int) -> Seq<char> {
    if v < 0 {
        seq!['-'] + dec_nat(-v)
    } else {
        dec_nat(v)
    }
}

/// The target-language text of one node: numbers in decimal, identifiers
/// unchanged, binary operations parenthesized as a unit with spaces around
/// the operator, and assignments as a `let` declaration ending in the
/// statement terminator.
pub open spec fn render(e: ExprModel) -> Seq<char>
    decreases e,
{
    match e {
        ExprModel::Number(v) => dec_int(v),
        ExprModel::Identifier(name) => name,
        ExprModel::BinaryOp(left, op, right) => "("@ + render(*left) + " "@ + op + " "@ + render(
            *right,
        ) + ")"@,
        ExprModel::Assignment(name, value) => "let "@ + name + " = "@ + render(*value) + ";"@,
    }
}

/// `digits` in least-significant-first order, read back most significant
/// first.
pub open spec fn rev_chars(s: Seq<char>) -> Seq<char>
    decreases s.len(),
{
    if s.len() == 0 {
        s
    } else {
        seq![s.last()] + rev_chars(s.drop_last())
    }
}

fn digit_char_of(d: u64) -> (c: char)
    requires
        d < 10,
    ensures
        c == digit_char(d as int),
{
    if d == 0 {
        '0'
    } else if d == 1 {
        '1'
    } else if d == 2 {
        '2'
    } else if d == 3 {
        '3'
    } else if d == 4 {
        '4'
    } else if d == 5 {
        '5'
    } else if d == 6 {
        '6'
    } else if d == 7 {
        '7'
    } else if d == 8 {
        '8'
    } else {
        '9'
    }
}

/// The decimal text of an `i64`, exactly `dec_int` of its value.
#[verifier::loop_isolation(false)]
fn i64_to_string(v: i64) -> (r: String)
    ensures
        r@ == dec_int(v as int),
{
    let mut n: u64 = if v < 0 {
        (-(v as i128)) as u64
    } else {
        v as u64
    };
    let ghost n0 = n as int;
    if n == 0 {
        let mut r = String::new();
        r.push('0');
        proof {
            assert(r@ =~= dec_int(0));
        }
        return r;
    }
    let mut digits: Vec<char> = Vec::new();
    proof {
        assert(rev_chars(digits@) =~= Seq::<char>::empty());
        assert(dec_nat(n as int) + rev_chars(digits@) =~= dec_nat(n as int));
    }
    loop
        invariant
            0 <= n,
            if n >= 1 {
                dec_nat(n0) == dec_nat(n as int) + rev_chars(digits@)
            } else {
                dec_nat(n0) == rev_chars(digits@)
            },
        decreases n,
    {
        if n == 0 {
            break;
        }
        let d = n % 10;
        proof {
            let pushed = digits@.push(digit_char(d as int));
            assert(pushed.drop_last() =~= digits@);
            if n >= 10 {
                assert(dec_nat(n as int) == dec_nat(n as int / 10).push(digit_char(d as int)));
                assert(dec_nat(n as int / 10) + (seq![digit_char(d as int)] + rev_chars(digits@))
                    =~= dec_nat(n as int) + rev_chars(digits@));
            } else {
                assert(dec_nat(n as int) =~= seq![digit_char(d as int)]);
                assert(seq![digit_char(d as int)] + rev_chars(digits@) =~= dec_nat(n as int)
                    + rev_chars(digits@));
            }
        }
        digits.push(digit_char_of(d));
        n = n / 10;
    }
    let mut r = String::new();
    if v < 0 {
        r.push('-');
    }
    let ghost sign: Seq<char> = r@;
    proof {
        assert(dec_int(v as int) =~= sign + rev_chars(digits@));
    }
    loop
        invariant
            r@ + rev_chars(digits@) == dec_int(v as int),
        decreases digits@.len(),
    {
        let c = match digits.pop() {
            Some(c) => c,
            None => {
                break;
            },
        };
        proof {
            let before = digits@.push(c);
            assert(before.drop_last() =~= digits@);
            assert(r@.push(c) + rev_chars(digits@) =~= r@ + rev_chars(before));
        }
        r.push(c);
    }
    proof {
        assert(r@ =~= r@ + rev_chars(digits@));
    }
    r
}

impl Expr {
    /// Render this node as target-language source text.
    pub fn generate_rust_code(&self) -> (r: String)
        ensures
            r@ == render(self@),
        decreases self,
    {
        match self {
            Expr::Assignment(identifier, expr) => {
                let mut s = String::new();
                s.append("let ");
                s.append(identifier.as_str());
                s.append(" = ");
                let inner = expr.generate_rust_code();
                s.append(inner.as_str());
                s.append(";");
                proof {
                    assert(s@ =~= render(self@));
                }
                s
            },
            Expr::Number(value) => i64_to_string(*value),
            Expr::Identifier(name) => {
                let r = String::from_str(name.as_str());
                r
            },
            Expr::BinaryOp(left, op, right) => {
                let mut s = String::new();
                s.append("(");
                let ls = left.generate_rust_code();
                s.append(ls.as_str());
                s.append(" ");
                s.append(op.as_str());
                s.append(" ");
                let rs = right.generate_rust_code();
                s.append(rs.as_str());
                s.append(")");
                proof {
                    assert(s@ =~= render(self@));
                }
                s
            },
        }
    }
}

} // verus!
