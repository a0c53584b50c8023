//! Gates of a circuit as plain data: polynomials over the cells around a row, which have to vanish
//! wherever their gate is switched on.
use vstd::prelude::*;

use crate::pallas::Base;

verus! {

/// A polynomial over the cells around a row.
#[derive(Debug)]
pub enum Expr {
    Constant(Base),
    /// the cell of an advice column, some rows further down
    Advice { column: usize, rotation: usize },
    /// the cell of a fixed column in the same row
    Fixed { column: usize },
    Sum(Box<Expr>, Box<Expr>),
    Difference(Box<Expr>, Box<Expr>),
    Product(Box<Expr>, Box<Expr>),
}

impl Expr {
    /// The value over the integers, for the advice cells of the rows from here on and the fixed
    /// cells of this row. The circuit sees it modulo the order of the field.
    pub open spec fn value(self, rows: Seq<Seq<nat>>, fixed: Seq<nat>) -> int
        decreases self,
    {
        match self {
            Expr::Constant(c) => c@ as int,
            Expr::Advice { column, rotation } => rows[rotation as int][column as int] as int,
            Expr::Fixed { column } => fixed[column as int] as int,
            Expr::Sum(a, b) => a.value(rows, fixed) + b.value(rows, fixed),
            Expr::Difference(a, b) => a.value(rows, fixed) - b.value(rows, fixed),
            Expr::Product(a, b) => a.value(rows, fixed) * b.value(rows, fixed),
        }
    }

    /// Whether the cells that the polynomial reads exist.
    pub open spec fn reads_within(self, rows: Seq<Seq<nat>>, fixed: Seq<nat>) -> bool
        decreases self,
    {
        match self {
            Expr::Constant(_) => true,
            Expr::Advice { column, rotation } => rotation < rows.len() && column
                < rows[rotation as int].len(),
            Expr::Fixed { column } => column < fixed.len(),
            Expr::Sum(a, b) => a.reads_within(rows, fixed) && b.reads_within(rows, fixed),
            Expr::Difference(a, b) => a.reads_within(rows, fixed) && b.reads_within(rows, fixed),
            Expr::Product(a, b) => a.reads_within(rows, fixed) && b.reads_within(rows, fixed),
        }
    }

    /// The value in the field.
    pub fn evaluate(&self, rows: &[Vec<Base>], fixed: &[Base]) -> (r: Base)
        requires
            self.reads_within(cells(rows@), crate::hash::values(fixed@)),
        ensures
            r@ == self.value(cells(rows@), crate::hash::values(fixed@)) % (
            crate::pallas::base_modulus() as int),
        decreases self,
    {
        let ghost m = crate::pallas::base_modulus() as int;
        match self {
            Expr::Constant(c) => {
                proof {
                    use_type_invariant(c);
                    vstd::arithmetic::div_mod::lemma_small_mod(c@, m as nat);
                }
                *c
            },
            Expr::Advice { column, rotation } => {
                let cell = rows[*rotation][*column];
                proof {
                    use_type_invariant(&cell);
                    vstd::arithmetic::div_mod::lemma_small_mod(cell@, m as nat);
                }
                cell
            },
            Expr::Fixed { column } => {
                let cell = fixed[*column];
                proof {
                    use_type_invariant(&cell);
                    vstd::arithmetic::div_mod::lemma_small_mod(cell@, m as nat);
                }
                cell
            },
            Expr::Sum(a, b) => {
                proof {
                    let x = a.value(cells(rows@), crate::hash::values(fixed@));
                    let y = b.value(cells(rows@), crate::hash::values(fixed@));
                    vstd::arithmetic::div_mod::lemma_add_mod_noop(x, y, m);
                }
                a.evaluate(rows, fixed).plus(&b.evaluate(rows, fixed))
            },
            Expr::Difference(a, b) => {
                proof {
                    let x = a.value(cells(rows@), crate::hash::values(fixed@));
                    let y = b.value(cells(rows@), crate::hash::values(fixed@));
                    vstd::arithmetic::div_mod::lemma_sub_mod_noop(x, y, m);
                }
                a.evaluate(rows, fixed).minus(&b.evaluate(rows, fixed))
            },
            Expr::Product(a, b) => {
                proof {
                    let x = a.value(cells(rows@), crate::hash::values(fixed@));
                    let y = b.value(cells(rows@), crate::hash::values(fixed@));
                    vstd::arithmetic::div_mod::lemma_mul_mod_noop(x, y, m);
                }
                a.evaluate(rows, fixed).times(&b.evaluate(rows, fixed))
            },
        }
    }
}

/// The integers in some rows of cells.
pub open spec fn cells(rows: Seq<Vec<Base>>) -> Seq<Seq<nat>> {
    rows.map_values(|r: Vec<Base>| crate::hash::values(r@))
}

/// A constant.
pub fn constant(value: Base) -> (r: Expr)
    ensures
        r == Expr::Constant(value),
{
    Expr::Constant(value)
}

/// A cell of this row.
pub fn cur(column: usize) -> (r: Expr)
    ensures
        r == (Expr::Advice { column, rotation: 0 }),
{
    Expr::Advice { column, rotation: 0 }
}

/// A cell of the next row.
pub fn next(column: usize) -> (r: Expr)
    ensures
        r == (Expr::Advice { column, rotation: 1 }),
{
    Expr::Advice { column, rotation: 1 }
}

pub fn sum(a: Expr, b: Expr) -> (r: Expr)
    ensures
        r == Expr::Sum(Box::new(a), Box::new(b)),
{
    Expr::Sum(Box::new(a), Box::new(b))
}

pub fn difference(a: Expr, b: Expr) -> (r: Expr)
    ensures
        r == Expr::Difference(Box::new(a), Box::new(b)),
{
    Expr::Difference(Box::new(a), Box::new(b))
}

pub fn product(a: Expr, b: Expr) -> (r: Expr)
    ensures
        r == Expr::Product(Box::new(a), Box::new(b)),
{
    Expr::Product(Box::new(a), Box::new(b))
}

/// Polynomials that vanish together.
#[derive(Debug)]
pub struct Gate {
    pub name: &'static str,
    pub polys: Vec<Expr>,
}

/// Whether an integer is zero in the field.
pub open spec fn vanishes(x: int) -> bool {
    x % (crate::pallas::base_modulus() as int) == 0
}

impl Gate {
    /// Whether all polynomials vanish on the rows from here on.
    pub open spec fn holds(self, rows: Seq<Seq<nat>>, fixed: Seq<nat>) -> bool {
        forall|i: int|
            0 <= i < self.polys@.len() ==> vanishes((#[trigger] self.polys@[i]).value(rows, fixed))
    }

    /// Whether all cells that are read exist.
    pub open spec fn reads_within(self, rows: Seq<Seq<nat>>, fixed: Seq<nat>) -> bool {
        forall|i: int|
            0 <= i < self.polys@.len() ==> (#[trigger] self.polys@[i]).reads_within(rows, fixed)
    }

    /// Whether all polynomials vanish on the rows from here on.
    pub fn check(&self, rows: &[Vec<Base>], fixed: &[Base]) -> (r: bool)
        requires
            self.reads_within(cells(rows@), crate::hash::values(fixed@)),
        ensures
            r == self.holds(cells(rows@), crate::hash::values(fixed@)),
    {
        let mut i: usize = 0;
        while i < self.polys.len()
            invariant
                i <= self.polys@.len(),
                self.reads_within(cells(rows@), crate::hash::values(fixed@)),
                forall|j: int|
                    0 <= j < i ==> vanishes(
                        (#[trigger] self.polys@[j]).value(
                            cells(rows@),
                            crate::hash::values(fixed@),
                        ),
                    ),
            decreases self.polys@.len() - i,
        {
            if !self.polys[i].evaluate(rows, fixed).is_zero() {
                return false;
            }
            i = i + 1;
        }
        true
    }
}

/// A number between the negative and the positive order that is zero in the field is zero.
pub proof fn lemma_small_zero(x: int)
    requires
        vanishes(x),
        -(crate::pallas::base_modulus() as int) < x < crate::pallas::base_modulus(),
    ensures
        x == 0,
{
    let m = crate::pallas::base_modulus() as int;
    if x >= 0 {
        vstd::arithmetic::div_mod::lemma_small_mod(x as nat, m as nat);
    } else {
        vstd::arithmetic::div_mod::lemma_mod_add_multiples_vanish(x, m);
        vstd::arithmetic::div_mod::lemma_small_mod((x + m) as nat, m as nat);
    }
}

} // verus!
