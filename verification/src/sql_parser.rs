use vstd::prelude::*;

pub mod parse;

verus! {

/// The mathematical shape of one SELECT projection.
pub ghost enum SelectArgModel {
    Literal(Seq<u8>),
    Count(Seq<u8>),
}

/// One projection of a SELECT: a bare column name or star, or COUNT of one.
#[derive(Debug, PartialEq, Eq)]
pub enum SelectArg {
    LITERAL(Vec<u8>),
    COUNT(Vec<u8>),
}

impl View for SelectArg {
    type V = SelectArgModel;

    open spec fn view(&self) -> SelectArgModel {
        match self {
            SelectArg::LITERAL(v) => SelectArgModel::Literal(v@),
            SelectArg::COUNT(v) => SelectArgModel::Count(v@),
        }
    }
}

impl DeepView for SelectArg {
    type V = SelectArgModel;

    open spec fn deep_view(&self) -> SelectArgModel {
        self.view()
    }
}

/// The mathematical shape of a parsed SELECT.
pub ghost struct SelectModel {
    pub args: Seq<SelectArgModel>,
    pub table: Seq<u8>,
}

/// A parsed SELECT: its projections and the table they are drawn from.
#[derive(Debug, PartialEq, Eq)]
pub struct SelectStatement {
    pub args: Vec<SelectArg>,
    pub table: Vec<u8>,
}

impl View for SelectStatement {
    type V = SelectModel;

    open spec fn view(&self) -> SelectModel {
        SelectModel { args: self.args.deep_view(), table: self.table@ }
    }
}

/// One column of a CREATE TABLE; only its name is retained.
#[derive(Debug, PartialEq, Eq)]
pub struct CreateTableArg {
    pub column: Vec<u8>,
}

impl View for CreateTableArg {
    type V = Seq<u8>;

    open spec fn view(&self) -> Seq<u8> {
        self.column@
    }
}

impl DeepView for CreateTableArg {
    type V = Seq<u8>;

    open spec fn deep_view(&self) -> Seq<u8> {
        self.view()
    }
}

/// The mathematical shape of a parsed CREATE TABLE.
pub ghost struct CreateModel {
    pub args: Seq<Seq<u8>>,
    pub table: Seq<u8>,
}

/// A parsed CREATE TABLE: its column names and the table's name.
#[derive(Debug, PartialEq, Eq)]
pub struct CreateTableStatement {
    pub args: Vec<CreateTableArg>,
    pub table: Vec<u8>,
}

impl View for CreateTableStatement {
    type V = CreateModel;

    open spec fn view(&self) -> CreateModel {
        CreateModel { args: self.args.deep_view(), table: self.table@ }
    }
}

} // verus!
