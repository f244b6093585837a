use vstd::prelude::*;
use crate::symbol::{Kind, spec_colored_abbreviation};
use crate::text::Loc;
use crate::digits::spec_dec;

verus! {

/// The non-printing field separator of the output line format.
pub const SPACE: char = '\u{2008}';

/// One cached, path-qualified declaration: the persisted form of a symbol,
/// owning its text and keeping only the start location.
#[derive(Clone, Debug)]
pub struct Entry<P, S> {
    pub path: P,
    pub loc: Loc,
    pub text: S,
    pub kind: Kind,
}

impl<P, S> Entry<P, S> {
    pub fn new(path: P, loc: Loc, text: S, kind: Kind) -> (r: Self)
        ensures
            r == (Entry { path, loc, text, kind }),
    {
        Self { path, loc, text, kind }
    }
}

/// The mathematical value of an owned entry.
pub ghost struct EntryModel {
    pub path: Seq<char>,
    pub loc: Loc,
    pub text: Seq<char>,
    pub kind: Kind,
}

impl View for Entry<String, String> {
    type V = EntryModel;

    open spec fn view(&self) -> EntryModel {
        EntryModel { path: self.path@, loc: self.loc, text: self.text@, kind: self.kind }
    }
}

impl DeepView for Entry<String, String> {
    type V = EntryModel;

    open spec fn deep_view(&self) -> EntryModel {
        self.view()
    }
}

/// The output line for one entry: path, line, column, text and colored kind
/// abbreviation, each followed by the separator character.
pub open spec fn spec_line(e: EntryModel) -> Seq<char> {
    e.path + seq![SPACE] + spec_dec(e.loc.line as nat) + seq![SPACE] + spec_dec(
        e.loc.column as nat,
    ) + seq![SPACE] + e.text + seq![SPACE] + spec_colored_abbreviation(e.kind) + seq![SPACE]
}

impl Entry<String, String> {
    /// Renders the entry in the exact field order and separator the
    /// downstream fuzzy-selection consumer expects.
    pub fn format_line(&self) -> (r: String)
        ensures
            r@ == spec_line(self@),
    {
        let mut s = String::new();
        s.append(self.path.as_str());
        s.push(SPACE);
        s.append(crate::digits::dec_string(self.loc.line).as_str());
        s.push(SPACE);
        s.append(crate::digits::dec_string(self.loc.column).as_str());
        s.push(SPACE);
        s.append(self.text.as_str());
        s.push(SPACE);
        s.append(self.kind.colored_abbreviation().as_str());
        s.push(SPACE);
        proof {
            assert(s@ =~= spec_line(self@));
        }
        s
    }
}

} // verus!
