//! The GraphQL SDL document as plain values.

use vstd::prelude::*;
use crate::text::strings_view;
use graphql_parser::schema::{Definition, Document, TypeDefinition};

verus! {

/// The kind of a top-level SDL definition.
#[derive(Clone, Copy, Debug, PartialEq, Eq, Structural)]
pub enum SdlKind {
    Object,
    Interface,
    Enum,
    Other,
}

/// A field of an object or interface type: its name and the text of its type
/// reference, such as `[Status!]!`.
#[derive(Debug)]
pub struct SdlField {
    pub name: String,
    pub type_text: String,
}

/// A top-level SDL definition, reduced to what the schema extraction reads.
///
/// Objects and interfaces carry `implements` and `fields`; enums carry
/// `values`; every other definition has kind `Other` and empty parts.
#[derive(Debug)]
pub struct SdlDefinition {
    pub kind: SdlKind,
    pub name: String,
    pub implements: Vec<String>,
    pub fields: Vec<SdlField>,
    pub values: Vec<String>,
}

#[verifier::ext_equal]
pub struct SdlFieldView {
    pub name: Seq<char>,
    pub type_text: Seq<char>,
}

#[verifier::ext_equal]
pub struct SdlDefinitionView {
    pub kind: SdlKind,
    pub name: Seq<char>,
    pub implements: Seq<Seq<char>>,
    pub fields: Seq<SdlFieldView>,
    pub values: Seq<Seq<char>>,
}

impl View for SdlField {
    type V = SdlFieldView;

    open spec fn view(&self) -> SdlFieldView {
        SdlFieldView { name: self.name@, type_text: self.type_text@ }
    }
}

impl View for SdlDefinition {
    type V = SdlDefinitionView;

    open spec fn view(&self) -> SdlDefinitionView {
        SdlDefinitionView {
            kind: self.kind,
            name: self.name@,
            implements: strings_view(self.implements@),
            fields: self.fields@.map_values(|f: SdlField| f@),
            values: strings_view(self.values@),
        }
    }
}

/// The views of a sequence of definitions.
pub open spec fn defs_view(defs: Seq<SdlDefinition>) -> Seq<SdlDefinitionView> {
    defs.map_values(|d: SdlDefinition| d@)
}

/// A whitespace character outside ASCII: the non-ASCII members of Unicode's
/// `White_Space`, which `str::trim_start` strips.
pub open spec fn wide_whitespace(c: char) -> bool {
    ||| c == '\u{85}'
    ||| c == '\u{a0}'
    ||| c == '\u{1680}'
    ||| ('\u{2000}' <= c && c <= '\u{200a}')
    ||| c == '\u{2028}'
    ||| c == '\u{2029}'
    ||| c == '\u{202f}'
    ||| c == '\u{205f}'
    ||| c == '\u{3000}'
}

/// `s` holds three double quotes in a row, as a block string does.
pub open spec fn has_triple_quote(s: Seq<char>) -> bool {
    exists|i: int| 0 <= i && i + 2 < s.len() && #[trigger] s[i] == '"' && s[i + 1] == '"' && s[i + 2] == '"'
}

/// `s` holds a whitespace character outside ASCII.
pub open spec fn has_wide_whitespace(s: Seq<char>) -> bool {
    exists|i: int| 0 <= i < s.len() && #[trigger] wide_whitespace(s[i])
}

/// A text that `graphql_parser` parses without panicking: `parse_schema`
/// strips the common indentation of a block string (`"""`) by a byte count
/// measured with `trim_start`, so a block string indented with whitespace
/// outside ASCII makes it slice inside a character. A text with no `"""`,
/// or with no such whitespace, is clear of that.
pub open spec fn parses_without_panic(sdl: Seq<char>) -> bool {
    has_triple_quote(sdl) ==> !has_wide_whitespace(sdl)
}

/// What `graphql_parser::schema::parse_schema` makes of an SDL text.
pub uninterp spec fn sdl_document(sdl: Seq<char>) -> Result<Seq<SdlDefinitionView>, Seq<char>>;

/// The definitions that a parsed document holds.
pub uninterp spec fn parsed_definitions(doc: ParsedSdl) -> Seq<SdlDefinitionView>;

/// A parsed `graphql_parser` document.
#[verifier::external_body]
pub struct ParsedSdl {
    doc: Document<'static, String>,
}

impl ParsedSdl {
    /// Calls `graphql_parser::schema::parse_schema`.
    #[verifier::external_body]
    pub(crate) fn parse(sdl: &str) -> (res: Result<ParsedSdl, String>)
        requires
            parses_without_panic(sdl@),
        ensures
            match res {
                Ok(p) => sdl_document(sdl@) == Ok::<Seq<SdlDefinitionView>, Seq<char>>(parsed_definitions(p)),
                Err(e) => sdl_document(sdl@) == Err::<Seq<SdlDefinitionView>, Seq<char>>(e@),
            },
    {
        match graphql_parser::schema::parse_schema::<String>(sdl) {
            Ok(doc) => Ok(ParsedSdl { doc: doc.into_static() }),
            Err(e) => Err(e.to_string()),
        }
    }

    #[verifier::external_body]
    pub(crate) fn definition_count(&self) -> (res: usize)
        ensures
            res == parsed_definitions(*self).len(),
    {
        self.doc.definitions.len()
    }

    /// The kind, name, implemented interfaces and field count of definition `i`.
    #[verifier::external_body]
    pub(crate) fn definition_header(&self, i: usize) -> (res: (SdlKind, String, Vec<String>, usize))
        requires
            i < parsed_definitions(*self).len(),
        ensures
            res.0 == parsed_definitions(*self)[i as int].kind,
            res.1@ == parsed_definitions(*self)[i as int].name,
            strings_view(res.2@) == parsed_definitions(*self)[i as int].implements,
            res.3 == parsed_definitions(*self)[i as int].fields.len(),
    {
        match &self.doc.definitions[i] {
            Definition::TypeDefinition(TypeDefinition::Object(t)) =>
                (SdlKind::Object, t.name.clone(), t.implements_interfaces.clone(), t.fields.len()),
            Definition::TypeDefinition(TypeDefinition::Interface(t)) =>
                (SdlKind::Interface, t.name.clone(), t.implements_interfaces.clone(), t.fields.len()),
            Definition::TypeDefinition(TypeDefinition::Enum(t)) => (SdlKind::Enum, t.name.clone(), Vec::new(), 0),
            _ => (SdlKind::Other, String::new(), Vec::new(), 0),
        }
    }

    /// The values of definition `i`, in declaration order, where it is an enum.
    #[verifier::external_body]
    pub(crate) fn definition_values(&self, i: usize) -> (res: Vec<String>)
        requires
            i < parsed_definitions(*self).len(),
        ensures
            strings_view(res@) == parsed_definitions(*self)[i as int].values,
    {
        match &self.doc.definitions[i] {
            Definition::TypeDefinition(TypeDefinition::Enum(t)) => t.values.iter().map(|v| v.name.clone()).collect(),
            _ => Vec::new(),
        }
    }

    /// The name of field `j` of definition `i`, and its type as
    /// `graphql_parser` displays it.
    #[verifier::external_body]
    pub(crate) fn field(&self, i: usize, j: usize) -> (res: (String, String))
        requires
            i < parsed_definitions(*self).len(),
            j < parsed_definitions(*self)[i as int].fields.len(),
        ensures
            res.0@ == parsed_definitions(*self)[i as int].fields[j as int].name,
            res.1@ == parsed_definitions(*self)[i as int].fields[j as int].type_text,
    {
        match &self.doc.definitions[i] {
            Definition::TypeDefinition(TypeDefinition::Object(t)) =>
                (t.fields[j].name.clone(), t.fields[j].field_type.to_string()),
            Definition::TypeDefinition(TypeDefinition::Interface(t)) =>
                (t.fields[j].name.clone(), t.fields[j].field_type.to_string()),
            _ => (String::new(), String::new()),
        }
    }
}

/// Reads every definition of a parsed document into plain values.
pub fn read_definitions(doc: &ParsedSdl) -> (res: Vec<SdlDefinition>)
    ensures
        defs_view(res@) == parsed_definitions(*doc),
{
    let n = doc.definition_count();
    let mut out: Vec<SdlDefinition> = Vec::new();
    let mut i: usize = 0;
    while i < n
        invariant
            n == parsed_definitions(*doc).len(),
            i <= n,
            out@.len() == i,
            forall|k: int| 0 <= k < i ==> #[trigger] out@[k]@ == parsed_definitions(*doc)[k],
        decreases n - i,
    {
        let (kind, name, implements, count) = doc.definition_header(i);
        let values = doc.definition_values(i);
        let mut fields: Vec<SdlField> = Vec::new();
        let mut j: usize = 0;
        while j < count
            invariant
                i < n,
                n == parsed_definitions(*doc).len(),
                count == parsed_definitions(*doc)[i as int].fields.len(),
                j <= count,
                fields@.len() == j,
                forall|k: int| 0 <= k < j ==> #[trigger] fields@[k]@ == parsed_definitions(*doc)[i as int].fields[k],
            decreases count - j,
        {
            let (fname, ftype) = doc.field(i, j);
            fields.push(SdlField { name: fname, type_text: ftype });
            j += 1;
        }
        let def = SdlDefinition { kind, name, implements, fields, values };
        assert(def@.fields =~= parsed_definitions(*doc)[i as int].fields);
        assert(def@ =~= parsed_definitions(*doc)[i as int]);
        out.push(def);
        i += 1;
    }
    assert(defs_view(out@) =~= parsed_definitions(*doc));
    out
}


/// Whether a text is one that `graphql_parser` parses without panicking.
pub fn check_parses_without_panic(sdl: &str) -> (res: bool)
    ensures
        res == parses_without_panic(sdl@),
{
    broadcast use vstd::string::axiom_spec_iter;

    let ghost text = sdl@;
    let mut triple = false;
    let mut wide = false;
    let mut last_quote = false;
    let mut second_last_quote = false;
    for c in it: sdl.chars()
        invariant
            it.seq() == text,
            triple == has_triple_quote(text.take(it.index())),
            wide == has_wide_whitespace(text.take(it.index())),
            last_quote == (it.index() >= 1 && text[it.index() - 1] == '"'),
            second_last_quote == (it.index() >= 2 && text[it.index() - 2] == '"'),
    {
        let ghost n = it.index();
        let ghost before = text.take(n);
        let ghost after = text.take(n + 1);
        let ghost was_triple = triple;
        let ghost was_wide = wide;
        let closes = c == '"' && last_quote && second_last_quote;
        if closes {
            triple = true;
        }
        if wide_char(c) {
            wide = true;
        }
        proof {
            assert(text[n] == c);
            assert(after =~= before.push(c));
            if closes {
                assert(after[n - 2] == '"' && after[n - 1] == '"' && after[n] == '"');
            } else {
                if has_triple_quote(after) {
                    let i = choose|i: int|
                        0 <= i && i + 2 < after.len() && #[trigger] after[i] == '"' && after[i + 1] == '"'
                            && after[i + 2] == '"';
                    if i + 2 < n {
                        assert(before[i] == '"' && before[i + 1] == '"' && before[i + 2] == '"');
                    }
                }
                if was_triple {
                    let i = choose|i: int|
                        0 <= i && i + 2 < before.len() && #[trigger] before[i] == '"' && before[i + 1] == '"'
                            && before[i + 2] == '"';
                    assert(after[i] == '"' && after[i + 1] == '"' && after[i + 2] == '"');
                }
            }
            if wide_whitespace(c) {
                assert(wide_whitespace(after[n]));
            } else {
                if has_wide_whitespace(after) {
                    let i = choose|i: int| 0 <= i < after.len() && #[trigger] wide_whitespace(after[i]);
                    assert(wide_whitespace(before[i]));
                }
                if was_wide {
                    let i = choose|i: int| 0 <= i < before.len() && #[trigger] wide_whitespace(before[i]);
                    assert(wide_whitespace(after[i]));
                }
            }
        }
        second_last_quote = last_quote;
        last_quote = c == '"';
    }
    assert(text.take(text.len() as int) =~= text);
    !triple || !wide
}

/// Whether `c` is a whitespace character outside ASCII.
fn wide_char(c: char) -> (res: bool)
    ensures
        res == wide_whitespace(c),
{
    c == '\u{85}' || c == '\u{a0}' || c == '\u{1680}' || ('\u{2000}' <= c && c <= '\u{200a}') || c == '\u{2028}'
        || c == '\u{2029}' || c == '\u{202f}' || c == '\u{205f}' || c == '\u{3000}'
}

} // verus!
