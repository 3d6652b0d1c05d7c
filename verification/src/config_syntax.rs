use vstd::prelude::*;
use crate::config_types::{desc_view, fields_view, descs_view, FieldDesc, FieldTV, TyV, TypeDesc};

verus! {

/// The delimiter of a group of tokens.
#[derive(Debug, PartialEq, Eq)]
pub enum Delimiter {
    Parenthesis,
    Bracket,
    Brace,
}

/// A token tree of a configuration description: an identifier by its text (a raw identifier is
/// not one), a punctuation character, a literal by its source text, or a delimited group.
#[derive(Debug, PartialEq, Eq)]
pub enum TokenTree {
    Ident(String),
    Punct(char),
    Literal(String),
    Group(Delimiter, Vec<TokenTree>),
}

/// Why tokens do not describe a configuration.
#[derive(Debug, PartialEq, Eq)]
pub enum SyntaxError {
    /// A type was expected: `bool`, `int`, `uint`, `str`, `color`, a string literal, or a
    /// bracketed, braced or parenthesized group.
    ExpectedType,
    /// A field name was expected: an identifier that is not a keyword.
    ExpectedIdent,
    /// A `:` was expected after a field name.
    ExpectedColon,
    /// A `;` was expected after a field.
    ExpectedSemicolon,
    /// A bracketed or parenthesized group holds tokens after its content.
    UnexpectedToken,
}

/// The value of the string literal that `syn` reads from a literal's source text, or none where
/// the text is not a string literal.
pub uninterp spec fn lit_str_value(text: Seq<char>) -> Option<Seq<char>>;

/// `syn::parse_str::<syn::LitStr>` on a literal's source text, then `LitStr::value`: the
/// literal's value with its escapes resolved, where the text is a string literal.
#[verifier::external_body]
fn string_literal_value(text: &str) -> (r: Option<String>)
    ensures
        match r {
            Some(v) => lit_str_value(text@) == Some(v@),
            None => lit_str_value(text@) is None,
        },
{
    match syn::parse_str::<syn::LitStr>(text) {
        Ok(lit) => Some(lit.value()),
        Err(_) => None,
    }
}

/// Whether `syn` accepts the text as an identifier (it refuses Rust's keywords).
pub uninterp spec fn syn_ident(text: Seq<char>) -> bool;

/// `syn::parse_str::<syn::Ident>` on an identifier's text; the result is named by `syn_ident`.
#[verifier::external_body]
fn accepted_as_ident(text: &str) -> (r: bool)
    ensures
        r == syn_ident(text@),
{
    syn::parse_str::<syn::Ident>(text).is_ok()
}

/// Whether a token is the punctuation character `c`.
pub open spec fn is_punct(t: TokenTree, c: char) -> bool {
    match t {
        TokenTree::Punct(p) => p == c,
        _ => false,
    }
}

/// The scalar type that a keyword names.
pub open spec fn keyword_type(s: Seq<char>) -> Option<TyV> {
    if s == seq!['b', 'o', 'o', 'l'] {
        Some(TyV::Bool)
    } else if s == seq!['i', 'n', 't'] {
        Some(TyV::Int)
    } else if s == seq!['u', 'i', 'n', 't'] {
        Some(TyV::Uint)
    } else if s == seq!['s', 't', 'r'] {
        Some(TyV::Str)
    } else if s == seq!['c', 'o', 'l', 'o', 'r'] {
        Some(TyV::Color)
    } else {
        None
    }
}

/// The type that one token tree describes, and whether a group in it holds tokens after its
/// content: a keyword, a string literal, `[T]` for an array, `{ name: T; ... }` for a struct,
/// `( T | T ... )` (with an optional leading `|`) for an enum.
pub open spec fn parse_tree(t: TokenTree) -> Result<(TyV, bool), SyntaxError>
    decreases t, 0int,
{
    match t {
        TokenTree::Ident(s) => match keyword_type(s@) {
            Some(ty) => Ok((ty, false)),
            None => Err(SyntaxError::ExpectedType),
        },
        TokenTree::Punct(_) => Err(SyntaxError::ExpectedType),
        TokenTree::Literal(text) => match lit_str_value(text@) {
            Some(v) => Ok((TyV::LitStr(v), false)),
            None => Err(SyntaxError::ExpectedType),
        },
        TokenTree::Group(d, g) => match d {
            Delimiter::Bracket => {
                if g@.len() == 0 {
                    Err(SyntaxError::ExpectedType)
                } else {
                    match parse_tree(g@[0]) {
                        Err(e) => Err(e),
                        Ok((ty, stray)) => Ok((TyV::Array(Box::new(ty)), stray || g@.len() > 1)),
                    }
                }
            },
            Delimiter::Brace => match parse_fields(g@, 0, Seq::empty(), false) {
                Err(e) => Err(e),
                Ok((fs, stray)) => Ok((TyV::Struct(fs), stray)),
            },
            Delimiter::Parenthesis => {
                let start: int = if g@.len() > 0 && is_punct(g@[0], '|') {
                    1
                } else {
                    0
                };
                match parse_variants(g@, start, Seq::empty(), false) {
                    Err(e) => Err(e),
                    Ok((vs, stray)) => Ok((TyV::Enum(vs), stray)),
                }
            },
        },
    }
}

/// The fields `name: T` that the tokens from `i` on describe, separated by `;` with an optional
/// `;` at the end, after the fields `acc`; `stray` tells whether a group held tokens after its
/// content.
pub open spec fn parse_fields(ts: Seq<TokenTree>, i: int, acc: Seq<FieldTV>, stray: bool) -> Result<
    (Seq<FieldTV>, bool),
    SyntaxError,
>
    decreases ts, ts.len() - i,
{
    if i < 0 || i >= ts.len() {
        Ok((acc, stray))
    } else {
        match ts[i] {
            TokenTree::Ident(name) => {
                if !syn_ident(name@) {
                    Err(SyntaxError::ExpectedIdent)
                } else if i + 1 >= ts.len() || !is_punct(ts[i + 1], ':') {
                    Err(SyntaxError::ExpectedColon)
                } else if i + 2 >= ts.len() {
                    Err(SyntaxError::ExpectedType)
                } else {
                    match parse_tree(ts[i + 2]) {
                        Err(e) => Err(e),
                        Ok((ty, s)) => {
                            let acc2 = acc.push(FieldTV { name: name@, ty });
                            if i + 3 >= ts.len() {
                                Ok((acc2, stray || s))
                            } else if is_punct(ts[i + 3], ';') {
                                parse_fields(ts, i + 4, acc2, stray || s)
                            } else {
                                Err(SyntaxError::ExpectedSemicolon)
                            }
                        },
                    }
                }
            },
            _ => Err(SyntaxError::ExpectedIdent),
        }
    }
}

/// The alternatives `T | T ...` that the tokens from `i` on describe, after `acc`; tokens left
/// after the last alternative count as stray.
pub open spec fn parse_variants(ts: Seq<TokenTree>, i: int, acc: Seq<TyV>, stray: bool) -> Result<
    (Seq<TyV>, bool),
    SyntaxError,
>
    decreases ts, ts.len() - i,
{
    if i < 0 || i >= ts.len() {
        Err(SyntaxError::ExpectedType)
    } else {
        match parse_tree(ts[i]) {
            Err(e) => Err(e),
            Ok((ty, s)) => {
                let acc2 = acc.push(ty);
                if i + 1 < ts.len() && is_punct(ts[i + 1], '|') {
                    parse_variants(ts, i + 2, acc2, stray || s)
                } else {
                    Ok((acc2, stray || s || i + 1 < ts.len()))
                }
            },
        }
    }
}

/// The configuration that tokens describe: the fields of its struct, as `parse_fields` reads
/// them, with no group holding stray tokens.
pub open spec fn parse_config(ts: Seq<TokenTree>) -> Result<TyV, SyntaxError> {
    match parse_fields(ts, 0, Seq::empty(), false) {
        Err(e) => Err(e),
        Ok((fs, stray)) => if stray {
            Err(SyntaxError::UnexpectedToken)
        } else {
            Ok(TyV::Struct(fs))
        },
    }
}

fn is_punct_of(t: &TokenTree, c: char) -> (r: bool)
    ensures
        r == is_punct(*t, c),
{
    match t {
        TokenTree::Punct(p) => *p == c,
        _ => false,
    }
}

fn keyword_type_of(s: &String) -> (r: Option<TypeDesc>)
    ensures
        match r {
            Some(t) => keyword_type(s@) == Some(desc_view(t)),
            None => keyword_type(s@) is None,
        },
{
    proof {
        reveal_strlit("bool");
        reveal_strlit("int");
        reveal_strlit("uint");
        reveal_strlit("str");
        reveal_strlit("color");
        assert("bool"@ == seq!['b', 'o', 'o', 'l']);
        assert("int"@ == seq!['i', 'n', 't']);
        assert("uint"@ == seq!['u', 'i', 'n', 't']);
        assert("str"@ == seq!['s', 't', 'r']);
        assert("color"@ == seq!['c', 'o', 'l', 'o', 'r']);
    }
    if crate::text::str_eq(s.as_str(), "bool") {
        Some(TypeDesc::Bool)
    } else if crate::text::str_eq(s.as_str(), "int") {
        Some(TypeDesc::Int)
    } else if crate::text::str_eq(s.as_str(), "uint") {
        Some(TypeDesc::Uint)
    } else if crate::text::str_eq(s.as_str(), "str") {
        Some(TypeDesc::Str)
    } else if crate::text::str_eq(s.as_str(), "color") {
        Some(TypeDesc::Color)
    } else {
        None
    }
}

proof fn lemma_fields_view_push(fs: Seq<FieldDesc>, f: FieldDesc)
    ensures
        fields_view(fs.push(f)) == fields_view(fs).push(FieldTV { name: f.name@, ty: desc_view(f.ty) }),
{
    assert(fs.push(f).drop_last() =~= fs);
}

proof fn lemma_descs_view_push(vs: Seq<TypeDesc>, t: TypeDesc)
    ensures
        descs_view(vs.push(t)) == descs_view(vs).push(desc_view(t)),
{
    assert(vs.push(t).drop_last() =~= vs);
}

/// The type that one token tree describes, as `parse_tree` says.
pub fn parse_tree_of(t: &TokenTree) -> (r: Result<(TypeDesc, bool), SyntaxError>)
    ensures
        match r {
            Ok((d, stray)) => parse_tree(*t) == Ok::<(TyV, bool), SyntaxError>((desc_view(d), stray)),
            Err(e) => parse_tree(*t) == Err::<(TyV, bool), SyntaxError>(e),
        },
    decreases *t, 1int,
{
    match t {
        TokenTree::Ident(s) => match keyword_type_of(s) {
            Some(ty) => Ok((ty, false)),
            None => Err(SyntaxError::ExpectedType),
        },
        TokenTree::Punct(_) => Err(SyntaxError::ExpectedType),
        TokenTree::Literal(text) => match string_literal_value(text.as_str()) {
            Some(v) => Ok((TypeDesc::LitStr(v), false)),
            None => Err(SyntaxError::ExpectedType),
        },
        TokenTree::Group(d, g) => match d {
            Delimiter::Bracket => {
                if g.len() == 0 {
                    Err(SyntaxError::ExpectedType)
                } else {
                    proof {
                        assert(decreases_to!(*t => g@[0]));
                    }
                    match parse_tree_of(&g[0]) {
                        Err(e) => Err(e),
                        Ok((ty, stray)) => Ok((TypeDesc::Array(Box::new(ty)), stray || g.len() > 1)),
                    }
                }
            },
            Delimiter::Brace => {
                proof {
                    assert(decreases_to!(*t => g@));
                }
                match parse_fields_of(g, 0) {
                    Err(e) => Err(e),
                    Ok((fs, stray)) => Ok((TypeDesc::Struct(fs), stray)),
                }
            },
            Delimiter::Parenthesis => {
                let start: usize = if g.len() > 0 && is_punct_of(&g[0], '|') {
                    1
                } else {
                    0
                };
                proof {
                    assert(decreases_to!(*t => g@));
                }
                match parse_variants_of(g, start) {
                    Err(e) => Err(e),
                    Ok((vs, stray)) => Ok((TypeDesc::Enum(vs), stray)),
                }
            },
        },
    }
}

/// The fields that the tokens from `from` on describe, as `parse_fields` says.
fn parse_fields_of(ts: &Vec<TokenTree>, from: usize) -> (r: Result<(Vec<FieldDesc>, bool), SyntaxError>)
    requires
        from <= ts@.len(),
    ensures
        match r {
            Ok((fs, stray)) => parse_fields(ts@, from as int, Seq::empty(), false) == Ok::<
                (Seq<FieldTV>, bool),
                SyntaxError,
            >((fields_view(fs@), stray)),
            Err(e) => parse_fields(ts@, from as int, Seq::empty(), false) == Err::<
                (Seq<FieldTV>, bool),
                SyntaxError,
            >(e),
        },
    decreases ts@, 0int,
{
    let ghost start = parse_fields(ts@, from as int, Seq::empty(), false);
    let mut fields: Vec<FieldDesc> = Vec::new();
    let mut stray = false;
    let mut i = from;
    proof {
        assert(fields_view(fields@) =~= Seq::<FieldTV>::empty());
    }
    while i < ts.len()
        invariant
            i <= ts@.len(),
            start == parse_fields(ts@, from as int, Seq::empty(), false),
            start == parse_fields(ts@, i as int, fields_view(fields@), stray),
        decreases ts@.len() - i,
    {
        let name = match &ts[i] {
            TokenTree::Ident(name) => name,
            _ => {
                return Err(SyntaxError::ExpectedIdent);
            },
        };
        if !accepted_as_ident(name.as_str()) {
            return Err(SyntaxError::ExpectedIdent);
        }
        if i + 1 >= ts.len() || !is_punct_of(&ts[i + 1], ':') {
            return Err(SyntaxError::ExpectedColon);
        }
        if i + 2 >= ts.len() {
            return Err(SyntaxError::ExpectedType);
        }
        proof {
            assert(decreases_to!(ts@ => ts@[i + 2]));
        }
        let (ty, s) = match parse_tree_of(&ts[i + 2]) {
            Ok(p) => p,
            Err(e) => {
                return Err(e);
            },
        };
        let ghost before = fields@;
        let f = FieldDesc { name: name.clone(), ty };
        fields.push(f);
        stray = stray || s;
        proof {
            lemma_fields_view_push(before, f);
        }
        if i + 3 >= ts.len() {
            return Ok((fields, stray));
        } else if is_punct_of(&ts[i + 3], ';') {
            i = i + 4;
        } else {
            return Err(SyntaxError::ExpectedSemicolon);
        }
    }
    Ok((fields, stray))
}

/// The alternatives that the tokens from `from` on describe, as `parse_variants` says.
fn parse_variants_of(ts: &Vec<TokenTree>, from: usize) -> (r: Result<(Vec<TypeDesc>, bool), SyntaxError>)
    requires
        from <= ts@.len(),
    ensures
        match r {
            Ok((vs, stray)) => parse_variants(ts@, from as int, Seq::empty(), false) == Ok::<
                (Seq<TyV>, bool),
                SyntaxError,
            >((descs_view(vs@), stray)),
            Err(e) => parse_variants(ts@, from as int, Seq::empty(), false) == Err::<
                (Seq<TyV>, bool),
                SyntaxError,
            >(e),
        },
    decreases ts@, 0int,
{
    let ghost start = parse_variants(ts@, from as int, Seq::empty(), false);
    let mut variants: Vec<TypeDesc> = Vec::new();
    let mut stray = false;
    let mut i = from;
    proof {
        assert(descs_view(variants@) =~= Seq::<TyV>::empty());
    }
    loop
        invariant
            i <= ts@.len(),
            start == parse_variants(ts@, from as int, Seq::empty(), false),
            start == parse_variants(ts@, i as int, descs_view(variants@), stray),
        decreases ts@.len() - i,
    {
        if i >= ts.len() {
            return Err(SyntaxError::ExpectedType);
        }
        proof {
            assert(decreases_to!(ts@ => ts@[i as int]));
        }
        let (ty, s) = match parse_tree_of(&ts[i]) {
            Ok(p) => p,
            Err(e) => {
                return Err(e);
            },
        };
        let ghost before = variants@;
        variants.push(ty);
        stray = stray || s;
        proof {
            lemma_descs_view_push(before, variants@.last());
            assert(variants@ =~= before.push(variants@.last()));
        }
        if i + 1 < ts.len() && is_punct_of(&ts[i + 1], '|') {
            i = i + 2;
        } else {
            let left = i + 1 < ts.len();
            return Ok((variants, stray || left));
        }
    }
}

/// The description of the configuration that tokens describe, as `parse_config` says.
pub fn parse_config_of(ts: &Vec<TokenTree>) -> (r: Result<TypeDesc, SyntaxError>)
    ensures
        match r {
            Ok(d) => parse_config(ts@) == Ok::<TyV, SyntaxError>(desc_view(d)),
            Err(e) => parse_config(ts@) == Err::<TyV, SyntaxError>(e),
        },
{
    match parse_fields_of(ts, 0) {
        Err(e) => Err(e),
        Ok((fs, stray)) => {
            if stray {
                Err(SyntaxError::UnexpectedToken)
            } else {
                Ok(TypeDesc::Struct(fs))
            }
        },
    }
}

} // verus!
