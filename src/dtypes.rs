//! The data types of the sheet and of the formula language, with their models.
use vstd::prelude::*;

verus! {

/// The value held by a cell.
#[derive(Debug, Clone)]
pub enum CellVal {
    Int(i64),
    /// A real number, held as the bit pattern of an IEEE-754 double: the library
    /// carries reals but leaves floating-point arithmetic to its callers.
    Real(u64),
    Text(String),
    /// Formula text, leading `=` included.
    Formula(String),
}

/// What a `CellVal` holds, with text as a sequence of characters.
pub enum ValModel {
    Int(i64),
    Real(u64),
    Text(Seq<char>),
    Formula(Seq<char>),
}

impl View for CellVal {
    type V = ValModel;

    open spec fn view(&self) -> ValModel {
        match self {
            CellVal::Int(v) => ValModel::Int(*v),
            CellVal::Real(b) => ValModel::Real(*b),
            CellVal::Text(s) => ValModel::Text(s@),
            CellVal::Formula(s) => ValModel::Formula(s@),
        }
    }
}

impl CellVal {
    /// A copy of the value.
    pub fn duplicate(&self) -> (r: CellVal)
        ensures
            r@ == self@,
    {
        match self {
            CellVal::Int(v) => CellVal::Int(*v),
            CellVal::Real(b) => CellVal::Real(*b),
            CellVal::Text(s) => CellVal::Text(s.clone()),
            CellVal::Formula(s) => CellVal::Formula(s.clone()),
        }
    }
}

/// The model of an optional value.
pub open spec fn opt_val_model(o: Option<CellVal>) -> Option<ValModel> {
    match o {
        Some(v) => Some(v@),
        None => None,
    }
}

/// A cell address: column label and row number.
#[derive(Debug, Clone)]
pub struct CellLoc {
    pub col: String,
    pub row: usize,
}

pub struct LocModel {
    pub col: Seq<char>,
    pub row: usize,
}

impl View for CellLoc {
    type V = LocModel;

    open spec fn view(&self) -> LocModel {
        LocModel { col: self.col@, row: self.row }
    }
}

impl CellLoc {
    /// A copy of the address.
    pub fn duplicate(&self) -> (r: CellLoc)
        ensures
            r@ == self@,
    {
        CellLoc { col: self.col.clone(), row: self.row }
    }
}

/// A stored cell.
#[derive(Debug)]
pub struct Cell {
    pub val: CellVal,
    pub loc: CellLoc,
}

/// A binary operator of the formula language.
#[derive(Debug, Clone, Copy, PartialEq, Eq)]
pub enum Op {
    Plus,
    Minus,
}

/// A number in a formula. Integer literals are read here; any other literal
/// keeps its text until it is read as a double.
#[derive(Debug, Clone)]
pub enum Number {
    Int(i64),
    /// Bit pattern of an IEEE-754 double, as taken from a real cell.
    Real(u64),
    /// Literal text that is not a 64-bit integer.
    Decimal(String),
}

pub enum NumModel {
    Int(i64),
    Real(u64),
    Decimal(Seq<char>),
}

impl View for Number {
    type V = NumModel;

    open spec fn view(&self) -> NumModel {
        match self {
            Number::Int(v) => NumModel::Int(*v),
            Number::Real(b) => NumModel::Real(*b),
            Number::Decimal(s) => NumModel::Decimal(s@),
        }
    }
}

impl Number {
    /// A copy of the number.
    pub fn duplicate(&self) -> (r: Number)
        ensures
            r@ == self@,
    {
        match self {
            Number::Int(v) => Number::Int(*v),
            Number::Real(b) => Number::Real(*b),
            Number::Decimal(s) => Number::Decimal(s.clone()),
        }
    }
}

/// A token of the formula language.
#[derive(Debug, Clone)]
pub enum FormToken {
    Num(Number),
    Loc(CellLoc),
    BinOp(Op),
}

pub enum TokenModel {
    Num(NumModel),
    Loc(LocModel),
    BinOp(Op),
}

impl View for FormToken {
    type V = TokenModel;

    open spec fn view(&self) -> TokenModel {
        match self {
            FormToken::Num(n) => TokenModel::Num(n@),
            FormToken::Loc(l) => TokenModel::Loc(l@),
            FormToken::BinOp(o) => TokenModel::BinOp(*o),
        }
    }
}

impl FormToken {
    /// A copy of the token.
    pub fn duplicate(&self) -> (r: FormToken)
        ensures
            r@ == self@,
    {
        match self {
            FormToken::Num(n) => FormToken::Num(n.duplicate()),
            FormToken::Loc(l) => FormToken::Loc(l.duplicate()),
            FormToken::BinOp(o) => FormToken::BinOp(*o),
        }
    }
}

/// An owned, possibly empty, expression subtree.
pub type TknLink = Option<Box<TknNode>>;

/// A node of an expression tree.
#[derive(Debug)]
pub struct TknNode {
    pub token: FormToken,
    pub left: TknLink,
    pub right: TknLink,
}

/// The shape and tokens of an expression tree.
pub enum TreeModel {
    Empty,
    Node(TokenModel, Box<TreeModel>, Box<TreeModel>),
}

pub open spec fn link_model(link: TknLink) -> TreeModel
    decreases link,
{
    match link {
        None => TreeModel::Empty,
        Some(node) => TreeModel::Node(
            node.token@,
            Box::new(link_model(node.left)),
            Box::new(link_model(node.right)),
        ),
    }
}

} // verus!
