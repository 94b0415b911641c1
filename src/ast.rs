use vstd::prelude::*;

verus! {

/// A literal of the SQL subset. A number with a fractional part, or one too
/// large for 64 bits, is kept as its text.
#[derive(Debug)]
pub enum Literal {
    Ident(Vec<u8>),
    StringLiteral(Vec<u8>),
    IntegerLiteral(i64),
    DecimalLiteral(Vec<u8>),
    Null,
}

pub enum LiteralModel {
    Ident(Seq<u8>),
    StringLiteral(Seq<u8>),
    IntegerLiteral(i64),
    DecimalLiteral(Seq<u8>),
    Null,
}

impl View for Literal {
    type V = LiteralModel;

    open spec fn view(&self) -> LiteralModel {
        match self {
            Literal::Ident(s) => LiteralModel::Ident(s@),
            Literal::StringLiteral(s) => LiteralModel::StringLiteral(s@),
            Literal::IntegerLiteral(n) => LiteralModel::IntegerLiteral(*n),
            Literal::DecimalLiteral(s) => LiteralModel::DecimalLiteral(s@),
            Literal::Null => LiteralModel::Null,
        }
    }
}

impl Literal {
    /// The name, if this literal is an identifier.
    pub fn get_ident(&self) -> (r: Option<&Vec<u8>>)
        ensures
            self@ is Ident ==> r is Some && r->Some_0@ == self@->Ident_0,
            !(self@ is Ident) ==> r is None,
    {
        match self {
            Literal::Ident(s) => Some(s),
            _ => None,
        }
    }
}

/// A `WHERE` expression: a bare literal, or `column = condition`.
#[derive(Debug)]
pub enum Expr {
    Literal(Literal),
    Equality { column: Literal, condition: Literal },
}

pub enum ExprModel {
    Literal(LiteralModel),
    Equality { column: LiteralModel, condition: LiteralModel },
}

impl View for Expr {
    type V = ExprModel;

    open spec fn view(&self) -> ExprModel {
        match self {
            Expr::Literal(l) => ExprModel::Literal(l@),
            Expr::Equality { column, condition } => ExprModel::Equality { column: column@, condition: condition@ },
        }
    }
}

impl Expr {
    /// The two sides, if this expression is an equality.
    pub fn get_equality(&self) -> (r: Option<(&Literal, &Literal)>)
        ensures
            self@ is Equality ==> r is Some && r->Some_0.0@ == self@->column && r->Some_0.1@
                == self@->condition,
            !(self@ is Equality) ==> r is None,
    {
        match self {
            Expr::Equality { column, condition } => Some((column, condition)),
            _ => None,
        }
    }
}

/// One item of the select list.
#[derive(Debug)]
pub enum SelectItem {
    Star,
    Count,
    Literal(Literal),
}

pub enum SelectItemModel {
    Star,
    Count,
    Literal(LiteralModel),
}

impl View for SelectItem {
    type V = SelectItemModel;

    open spec fn view(&self) -> SelectItemModel {
        match self {
            SelectItem::Star => SelectItemModel::Star,
            SelectItem::Count => SelectItemModel::Count,
            SelectItem::Literal(l) => SelectItemModel::Literal(l@),
        }
    }
}

pub open spec fn items_view(v: Seq<SelectItem>) -> Seq<SelectItemModel> {
    v.map_values(|x: SelectItem| x@)
}

/// A parsed `SELECT columns FROM table [WHERE expr]`.
#[derive(Debug)]
pub struct SelectStatement {
    pub columns: Vec<SelectItem>,
    pub table: Vec<u8>,
    pub where_expr: Option<Expr>,
}

pub struct SelectModel {
    pub columns: Seq<SelectItemModel>,
    pub table: Seq<u8>,
    pub where_expr: Option<ExprModel>,
}

impl View for SelectStatement {
    type V = SelectModel;

    open spec fn view(&self) -> SelectModel {
        SelectModel {
            columns: items_view(self.columns@),
            table: self.table@,
            where_expr: match self.where_expr {
                Some(e) => Some(e@),
                None => None,
            },
        }
    }
}

} // verus!
