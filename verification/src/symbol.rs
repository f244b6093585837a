use vstd::prelude::*;
use crate::text::Span;

verus! {

/// The closed set of symbol categories the indexer distinguishes.
#[derive(Clone, Copy, Debug, PartialEq, Eq, Structural)]
pub enum Kind {
    Class,
    Function,
    Method,
    Variable,
    Constant,
    Module,
}

/// The display abbreviation of a kind, without color.
pub open spec fn spec_abbreviation(k: Kind) -> Seq<char> {
    match k {
        Kind::Class => "c"@,
        Kind::Function => "f"@,
        Kind::Method => "m"@,
        Kind::Variable => "v"@,
        Kind::Constant => "k"@,
        Kind::Module => "M"@,
    }
}

/// The terminal color escape that opens a kind's abbreviation.
pub open spec fn spec_color(k: Kind) -> Seq<char> {
    match k {
        Kind::Class => "\u{1b}[33m"@,
        Kind::Function => "\u{1b}[34m"@,
        Kind::Method => "\u{1b}[36m"@,
        Kind::Variable => "\u{1b}[32m"@,
        Kind::Constant => "\u{1b}[35m"@,
        Kind::Module => "\u{1b}[31m"@,
    }
}

/// The colorized abbreviation: color escape, abbreviation, reset escape.
pub open spec fn spec_colored_abbreviation(k: Kind) -> Seq<char> {
    spec_color(k) + spec_abbreviation(k) + "\u{1b}[0m"@
}

/// The numeric code a kind is persisted under.
pub open spec fn spec_kind_code(k: Kind) -> u64 {
    match k {
        Kind::Class => 0,
        Kind::Function => 1,
        Kind::Method => 2,
        Kind::Variable => 3,
        Kind::Constant => 4,
        Kind::Module => 5,
    }
}

/// The kind a persisted code stands for, if any.
pub open spec fn spec_kind_of_code(c: u64) -> Option<Kind> {
    if c == 0 {
        Some(Kind::Class)
    } else if c == 1 {
        Some(Kind::Function)
    } else if c == 2 {
        Some(Kind::Method)
    } else if c == 3 {
        Some(Kind::Variable)
    } else if c == 4 {
        Some(Kind::Constant)
    } else if c == 5 {
        Some(Kind::Module)
    } else {
        None
    }
}

/// Decoding a kind's own code gives the kind back.
pub proof fn lemma_kind_code_round_trip(k: Kind)
    ensures
        spec_kind_of_code(spec_kind_code(k)) == Some(k),
{
}

impl Kind {
    pub fn code(&self) -> (c: u64)
        ensures
            c == spec_kind_code(*self),
    {
        match self {
            Kind::Class => 0,
            Kind::Function => 1,
            Kind::Method => 2,
            Kind::Variable => 3,
            Kind::Constant => 4,
            Kind::Module => 5,
        }
    }

    pub fn of_code(c: u64) -> (r: Option<Kind>)
        ensures
            r == spec_kind_of_code(c),
    {
        if c == 0 {
            Some(Kind::Class)
        } else if c == 1 {
            Some(Kind::Function)
        } else if c == 2 {
            Some(Kind::Method)
        } else if c == 3 {
            Some(Kind::Variable)
        } else if c == 4 {
            Some(Kind::Constant)
        } else if c == 5 {
            Some(Kind::Module)
        } else {
            None
        }
    }

    /// The colorized one-character abbreviation shown to the selection tool.
    pub fn colored_abbreviation(&self) -> (r: String)
        ensures
            r@ == spec_colored_abbreviation(*self),
    {
        let mut s = String::new();
        match self {
            Kind::Class => s.append("\u{1b}[33m"),
            Kind::Function => s.append("\u{1b}[34m"),
            Kind::Method => s.append("\u{1b}[36m"),
            Kind::Variable => s.append("\u{1b}[32m"),
            Kind::Constant => s.append("\u{1b}[35m"),
            Kind::Module => s.append("\u{1b}[31m"),
        }
        match self {
            Kind::Class => s.append("c"),
            Kind::Function => s.append("f"),
            Kind::Method => s.append("m"),
            Kind::Variable => s.append("v"),
            Kind::Constant => s.append("k"),
            Kind::Module => s.append("M"),
        }
        s.append("\u{1b}[0m");
        s
    }
}

/// One extracted declaration, local to a single parse of one file.
#[derive(Clone, Debug)]
pub struct Symbol {
    pub span: Span,
    pub text: String,
    pub kind: Kind,
}

pub ghost struct SymbolModel {
    pub span: Span,
    pub text: Seq<char>,
    pub kind: Kind,
}

impl View for Symbol {
    type V = SymbolModel;

    open spec fn view(&self) -> SymbolModel {
        SymbolModel { span: self.span, text: self.text@, kind: self.kind }
    }
}

} // verus!
