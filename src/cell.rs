use vstd::prelude::*;

verus! {

/// An exact fractional number `num / den`; a well-formed one has `den > 0`.
#[derive(Debug)]
pub struct Fraction {
    pub num: i64,
    pub den: i64,
}

impl Fraction {
    pub open spec fn wf(self) -> bool {
        self.den > 0
    }

    /// The two fractions denote the same rational number.
    pub open spec fn same_value(self, o: Fraction) -> bool {
        self.num * o.den == o.num * self.den
    }

    pub fn new(num: i64, den: i64) -> (r: Fraction)
        requires
            den > 0,
        ensures
            r == (Fraction { num, den }),
    {
        Fraction { num, den }
    }
}

impl Clone for Fraction {
    fn clone(&self) -> (r: Fraction)
        ensures
            r == *self,
    {
        Fraction { num: self.num, den: self.den }
    }
}

impl Copy for Fraction {}

/// The product of two 64-bit integers fits in 127 bits.
pub proof fn lemma_mul_i64(a: int, b: int)
    requires
        i64::MIN <= a <= i64::MAX,
        i64::MIN <= b <= i64::MAX,
    ensures
        -0x4000_0000_0000_0000_0000_0000_0000_0000 <= a * b <= 0x4000_0000_0000_0000_0000_0000_0000_0000,
{
    assert(-0x4000_0000_0000_0000_0000_0000_0000_0000 <= a * b <= 0x4000_0000_0000_0000_0000_0000_0000_0000)
        by (nonlinear_arith)
        requires
            -0x8000_0000_0000_0000 <= a <= 0x7fff_ffff_ffff_ffff,
            -0x8000_0000_0000_0000 <= b <= 0x7fff_ffff_ffff_ffff,
    ;
}

impl PartialEq for Fraction {
    fn eq(&self, o: &Fraction) -> (r: bool) {
        proof {
            lemma_mul_i64(self.num as int, o.den as int);
            lemma_mul_i64(o.num as int, self.den as int);
        }
        (self.num as i128) * (o.den as i128) == (o.num as i128) * (self.den as i128)
    }
}

impl vstd::std_specs::cmp::PartialEqSpecImpl for Fraction {
    open spec fn obeys_eq_spec() -> bool {
        true
    }

    open spec fn eq_spec(&self, o: &Fraction) -> bool {
        self.same_value(*o)
    }
}

/// The value held by a cell.
#[derive(Debug)]
pub enum CellValue {
    /// A 32-bit integer.
    Int(i32),
    /// A number that is not a whole integer, held exactly as a fraction.
    Float(Fraction),
    /// A text.
    String(String),
}

impl CellValue {
    /// Equality of values: integers and strings compare exactly, fractions by
    /// the number they denote.
    pub open spec fn same(self, o: CellValue) -> bool {
        match (self, o) {
            (CellValue::Int(a), CellValue::Int(b)) => a == b,
            (CellValue::Float(a), CellValue::Float(b)) => a.same_value(b),
            (CellValue::String(a), CellValue::String(b)) => a@ == b@,
            _ => false,
        }
    }

    pub open spec fn wf(self) -> bool {
        match self {
            CellValue::Float(f) => f.wf(),
            _ => true,
        }
    }
}

impl Clone for CellValue {
    fn clone(&self) -> (r: CellValue)
        ensures
            r == *self,
    {
        match self {
            CellValue::Int(i) => CellValue::Int(*i),
            CellValue::Float(f) => CellValue::Float(*f),
            CellValue::String(s) => CellValue::String(s.clone()),
        }
    }
}

impl PartialEq for CellValue {
    fn eq(&self, o: &CellValue) -> (r: bool) {
        match (self, o) {
            (CellValue::Int(a), CellValue::Int(b)) => *a == *b,
            (CellValue::Float(a), CellValue::Float(b)) => a.eq(b),
            (CellValue::String(a), CellValue::String(b)) => a.eq(b),
            _ => false,
        }
    }
}

impl vstd::std_specs::cmp::PartialEqSpecImpl for CellValue {
    open spec fn obeys_eq_spec() -> bool {
        true
    }

    open spec fn eq_spec(&self, o: &CellValue) -> bool {
        self.same(*o)
    }
}

/// What a cell value denotes: strings by their characters.
pub enum Val {
    Int(i32),
    Float(Fraction),
    Text(Seq<char>),
}

/// What a cell denotes.
pub struct CellModel {
    pub value: Val,
    pub is_valid: bool,
}

pub open spec fn int_model(v: i32) -> CellModel {
    CellModel { value: Val::Int(v), is_valid: true }
}

pub open spec fn invalid_model() -> CellModel {
    CellModel { value: Val::Int(0), is_valid: false }
}

pub open spec fn text_model(s: Seq<char>) -> CellModel {
    CellModel { value: Val::Text(s), is_valid: true }
}

pub open spec fn float_model(f: Fraction) -> CellModel {
    CellModel { value: Val::Float(f), is_valid: true }
}

/// What each cell of `s` denotes.
pub open spec fn models(s: Seq<Cell>) -> Seq<CellModel> {
    Seq::new(s.len(), |i: int| s[i]@)
}

pub proof fn lemma_models_update(s: Seq<Cell>, i: int, v: Cell)
    requires
        0 <= i < s.len(),
    ensures
        models(s.update(i, v)) == models(s).update(i, v@),
{
    assert(models(s.update(i, v)) =~= models(s).update(i, v@));
}

impl View for CellValue {
    type V = Val;

    open spec fn view(&self) -> Val {
        match self {
            CellValue::Int(i) => Val::Int(*i),
            CellValue::Float(f) => Val::Float(*f),
            CellValue::String(s) => Val::Text(s@),
        }
    }
}

/// A grid cell: a typed value and a validity flag. An invalid cell stands for
/// an evaluation error.
#[derive(Debug)]
pub struct Cell {
    pub value: CellValue,
    pub is_valid: bool,
}

impl View for Cell {
    type V = CellModel;

    open spec fn view(&self) -> CellModel {
        CellModel { value: self.value@, is_valid: self.is_valid }
    }
}

impl Cell {
    pub open spec fn wf(self) -> bool {
        self.value.wf()
    }

    /// A valid integer cell.
    pub fn new_int(value: i32) -> (r: Cell)
        ensures
            r@ == int_model(value),
            r.wf(),
    {
        Cell { value: CellValue::Int(value), is_valid: true }
    }

    /// A valid fractional cell.
    pub fn new_float(value: Fraction) -> (r: Cell)
        ensures
            r@ == float_model(value),
            r.value == CellValue::Float(value),
    {
        Cell { value: CellValue::Float(value), is_valid: true }
    }

    /// A valid string cell.
    pub fn new_string(value: String) -> (r: Cell)
        ensures
            r@ == text_model(value@),
            r.wf(),
    {
        Cell { value: CellValue::String(value), is_valid: true }
    }

    /// The invalid cell, holding integer zero.
    pub fn invalid() -> (r: Cell)
        ensures
            r@ == invalid_model(),
            r.wf(),
    {
        Cell { value: CellValue::Int(0), is_valid: false }
    }
}

impl Clone for Cell {
    fn clone(&self) -> (r: Cell)
        ensures
            r == *self,
    {
        Cell { value: self.value.clone(), is_valid: self.is_valid }
    }
}

impl Default for Cell {
    fn default() -> (r: Cell)
        ensures
            r@ == invalid_model(),
    {
        Cell::invalid()
    }
}

impl PartialEq for Cell {
    fn eq(&self, o: &Cell) -> (r: bool) {
        self.is_valid == o.is_valid && self.value.eq(&o.value)
    }
}

impl vstd::std_specs::cmp::PartialEqSpecImpl for Cell {
    open spec fn obeys_eq_spec() -> bool {
        true
    }

    open spec fn eq_spec(&self, o: &Cell) -> bool {
        self.is_valid == o.is_valid && self.value.same(o.value)
    }
}

} // verus!
