//! Row filters: the syntax tree of a predicate and its evaluation on a row.

use vstd::prelude::*;
use crate::error::CsvpeekError;
use crate::number::{number_less, number_of, parse_decimal, Decimal, Number};
use crate::parser::{parsed, reports};
use crate::pattern::matched_by;
use crate::record::{cell, field, field_names, fields_of};
use crate::text::{contains, find, less, lex_less, same, to_chars, trim, trimmed};
use crate::types::{is_null_chars, is_null_text};

verus! {

/// A comparison operator.
#[derive(Debug, Clone, Copy, PartialEq, Eq, Structural)]
pub enum CompareOp {
    Eq,
    Ne,
    Lt,
    Le,
    Gt,
    Ge,
}

/// The right-hand side of a comparison.
#[derive(Debug, Clone)]
pub enum Literal {
    Text(Vec<char>),
    Number(Decimal),
}

/// A column of the header that a filter reads.
#[derive(Debug, Clone)]
pub struct Column {
    pub name: Vec<char>,
    pub index: usize,
}

/// The syntax tree of a filter.
#[derive(Debug)]
pub enum Expr {
    And(Box<Expr>, Box<Expr>),
    Or(Box<Expr>, Box<Expr>),
    Not(Box<Expr>),
    Compare(Column, CompareOp, Literal),
    Contains(Column, Vec<char>),
    Matches(Column, regex::Regex),
    In(Column, Vec<Vec<char>>),
    IsNull(Column),
    IsNotNull(Column),
}

/// The mathematical form of a `Literal`.
pub ghost enum Operand {
    Text(Seq<char>),
    Number(Number),
}

/// The mathematical form of a `Column`.
pub ghost struct ColumnRef {
    pub name: Seq<char>,
    pub index: int,
}

/// The mathematical form of an `Expr`. A match holds the texts that its
/// regular expression matches, not the pattern: what a compiled expression
/// matches rests on how it was built.
pub ghost enum Formula {
    And(Box<Formula>, Box<Formula>),
    Or(Box<Formula>, Box<Formula>),
    Not(Box<Formula>),
    Compare(ColumnRef, CompareOp, Operand),
    Contains(ColumnRef, Seq<char>),
    Matches(ColumnRef, Set<Seq<char>>),
    In(ColumnRef, Seq<Seq<char>>),
    IsNull(ColumnRef),
    IsNotNull(ColumnRef),
}

impl View for Literal {
    type V = Operand;

    open spec fn view(&self) -> Operand {
        match self {
            Literal::Text(t) => Operand::Text(t@),
            Literal::Number(n) => Operand::Number(n@),
        }
    }
}

impl View for Column {
    type V = ColumnRef;

    open spec fn view(&self) -> ColumnRef {
        ColumnRef { name: self.name@, index: self.index as int }
    }
}

/// The texts of a list of character vectors.
pub open spec fn items(v: Seq<Vec<char>>) -> Seq<Seq<char>> {
    Seq::new(v.len(), |i: int| v[i]@)
}

/// The formula that a syntax tree stands for.
pub open spec fn formula(e: Expr) -> Formula
    decreases e,
{
    match e {
        Expr::And(a, b) => Formula::And(Box::new(formula(*a)), Box::new(formula(*b))),
        Expr::Or(a, b) => Formula::Or(Box::new(formula(*a)), Box::new(formula(*b))),
        Expr::Not(a) => Formula::Not(Box::new(formula(*a))),
        Expr::Compare(c, op, v) => Formula::Compare(c@, op, v@),
        Expr::Contains(c, p) => Formula::Contains(c@, p@),
        Expr::Matches(c, re) => Formula::Matches(c@, matched_by(re)),
        Expr::In(c, vs) => Formula::In(c@, items(vs@)),
        Expr::IsNull(c) => Formula::IsNull(c@),
        Expr::IsNotNull(c) => Formula::IsNotNull(c@),
    }
}

impl View for Expr {
    type V = Formula;

    open spec fn view(&self) -> Formula {
        formula(*self)
    }
}

/// What an operator makes of two operands, given whether the left one is
/// less than, equal to or greater than the right one.
pub open spec fn decides(op: CompareOp, lt: bool, eq: bool, gt: bool) -> bool {
    match op {
        CompareOp::Eq => eq,
        CompareOp::Ne => !eq,
        CompareOp::Lt => lt,
        CompareOp::Le => lt || eq,
        CompareOp::Gt => gt,
        CompareOp::Ge => gt || eq,
    }
}

/// Whether a cell stands in the relation `op` to a literal. Against a
/// number the trimmed cell is read as a number, and a cell that is none
/// fails every comparison; against a text the cell is compared as it is, in
/// lexicographic order.
pub open spec fn compares(c: Seq<char>, op: CompareOp, v: Operand) -> bool {
    match v {
        Operand::Number(n) => match number_of(trim(c)) {
            Some(x) => decides(op, number_less(x, n), x == n, number_less(n, x)),
            None => false,
        },
        Operand::Text(t) => decides(op, lex_less(c, t), c == t, lex_less(t, c)),
    }
}

/// Whether a row satisfies a formula.
pub open spec fn holds(f: Formula, row: Seq<Seq<char>>) -> bool
    decreases f,
{
    match f {
        Formula::And(a, b) => holds(*a, row) && holds(*b, row),
        Formula::Or(a, b) => holds(*a, row) || holds(*b, row),
        Formula::Not(a) => !holds(*a, row),
        Formula::Compare(c, op, v) => compares(cell(row, c.index), op, v),
        Formula::Contains(c, p) => contains(cell(row, c.index), p),
        Formula::Matches(c, texts) => texts.contains(cell(row, c.index)),
        Formula::In(c, vs) => vs.contains(cell(row, c.index)),
        Formula::IsNull(c) => is_null_text(cell(row, c.index)),
        Formula::IsNotNull(c) => !is_null_text(cell(row, c.index)),
    }
}

fn decide(op: CompareOp, lt: bool, eq: bool, gt: bool) -> (r: bool)
    ensures
        r == decides(op, lt, eq, gt),
{
    match op {
        CompareOp::Eq => eq,
        CompareOp::Ne => !eq,
        CompareOp::Lt => lt,
        CompareOp::Le => lt || eq,
        CompareOp::Gt => gt,
        CompareOp::Ge => gt || eq,
    }
}

/// Compares a cell with a literal.
pub fn eval_compare(c: &[char], op: CompareOp, v: &Literal) -> (r: bool)
    ensures
        r == compares(c@, op, v@),
{
    match v {
        Literal::Number(n) => match parse_decimal(trimmed(c)) {
            Some(x) => decide(op, x.less_than(n), x.same_as(n), n.less_than(&x)),
            None => false,
        },
        Literal::Text(t) => decide(
            op,
            less(c, t.as_slice()),
            same(c, t.as_slice()),
            less(t.as_slice(), c),
        ),
    }
}

fn is_one_of(c: &[char], vs: &Vec<Vec<char>>) -> (r: bool)
    ensures
        r == items(vs@).contains(c@),
{
    let mut i: usize = 0;
    while i < vs.len()
        invariant
            i <= vs@.len(),
            forall|k: int| 0 <= k < i ==> items(vs@)[k] != c@,
        decreases vs@.len() - i,
    {
        if same(c, vs[i].as_slice()) {
            assert(items(vs@)[i as int] == c@);
            return true;
        }
        i += 1;
    }
    false
}

/// Evaluates a syntax tree on a row.
pub fn eval_expr(expr: &Expr, record: &csv::StringRecord) -> (r: bool)
    ensures
        r == holds(expr@, fields_of(*record)),
    decreases expr,
{
    match expr {
        Expr::And(a, b) => eval_expr(a, record) && eval_expr(b, record),
        Expr::Or(a, b) => eval_expr(a, record) || eval_expr(b, record),
        Expr::Not(a) => !eval_expr(a, record),
        Expr::Compare(c, op, v) => {
            let text = to_chars(field(record, c.index));
            eval_compare(text.as_slice(), *op, v)
        },
        Expr::Contains(c, p) => {
            let text = to_chars(field(record, c.index));
            find(text.as_slice(), p.as_slice()).is_some()
        },
        Expr::Matches(c, re) => re.is_match(field(record, c.index)),
        Expr::In(c, vs) => {
            let text = to_chars(field(record, c.index));
            is_one_of(text.as_slice(), vs)
        },
        Expr::IsNull(c) => {
            let text = to_chars(field(record, c.index));
            is_null_chars(text.as_slice())
        },
        Expr::IsNotNull(c) => {
            let text = to_chars(field(record, c.index));
            !is_null_chars(text.as_slice())
        },
    }
}

/// A filter compiled against a header.
#[derive(Debug)]
pub struct Filter {
    expr: Expr,
}

impl View for Filter {
    type V = Formula;

    closed spec fn view(&self) -> Formula {
        self.expr@
    }
}

impl Filter {
    /// Compiles the text of a filter against the header of the table. Every
    /// column that the text names is looked up in the header here, so that
    /// evaluation cannot fail.
    pub fn parse(expr_str: &str, headers: &csv::StringRecord) -> (r: Result<Filter, CsvpeekError>)
        ensures
            match parsed(expr_str@, fields_of(*headers)) {
                Ok(f) => r matches Ok(x) && x@ == f,
                Err(e) => r matches Err(x) && reports(x, e),
            },
    {
        let names = field_names(headers);
        let text = to_chars(expr_str);
        match crate::parser::parse_expr(text.as_slice(), &names) {
            Ok(expr) => Ok(Filter { expr }),
            Err(e) => Err(e),
        }
    }

    /// Whether `record` passes the filter. The second argument is not read.
    pub fn matches(&self, record: &csv::StringRecord, _headers: &csv::StringRecord) -> (r: Result<
        bool,
        CsvpeekError,
    >)
        ensures
            r matches Ok(b) && b == holds(self@, fields_of(*record)),
    {
        Ok(eval_expr(&self.expr, record))
    }

    /// The syntax tree of the filter.
    pub fn expr(&self) -> (e: &Expr)
        ensures
            e@ == self@,
    {
        &self.expr
    }
}

} // verus!
