//! Recursive-descent parser from tokens to generator trees.
use crate::lang::token::{tok_type, TokType, Token, TokenView};
use crate::lang::tokenizer::{
    lex_all, reports_out, ErrorType as TokenizerError, Tokenizer, MAX_INCLUDE_RECURSIONS,
};
use crate::synth::{FactoryKind, FactoryParameters, GenTree, ParamValue};
use crate::text::push_char;
use vstd::prelude::*;

verus! {

/// What the parser found wrong.
#[derive(Debug, Clone, PartialEq, Eq)]
pub enum ErrorKind {
    /// A token of the first kind where one of the second was needed.
    Unexpected(TokType, TokType),
    /// A token of this kind cannot start the named construct.
    Unparseable(TokType, String),
    /// The operator that was needed, and the kind of token found.
    ExpectedOp(char, TokType),
    /// A call of a generator name that is not registered.
    UnknownGen(String),
}

/// How a token kind is written in error descriptions.
pub open spec fn type_text(t: TokType) -> Seq<char> {
    match t {
        TokType::Ident => "Ident"@,
        TokType::Integer => "Integer"@,
        TokType::Float => "Float"@,
        TokType::Oper => "Oper"@,
        TokType::String => "String"@,
        TokType::EOF => "EOF"@,
    }
}

fn kind_name(t: TokType) -> (r: &'static str)
    ensures
        r@ == type_text(t),
{
    match t {
        TokType::Ident => "Ident",
        TokType::Integer => "Integer",
        TokType::Float => "Float",
        TokType::Oper => "Oper",
        TokType::String => "String",
        TokType::EOF => "EOF",
    }
}

/// Default description of a parse error.
pub open spec fn parse_error_text(k: ErrorKind) -> Seq<char> {
    match k {
        ErrorKind::Unexpected(found, expected) => "Found "@ + type_text(found) + ", expected "@
            + type_text(expected),
        ErrorKind::Unparseable(found, term) => "Cannot consume "@ + type_text(found)
            + " token in "@ + term@,
        ErrorKind::ExpectedOp(c, found) => "Expected '"@.push(c) + "', found "@ + type_text(found),
        ErrorKind::UnknownGen(name) => "Unknown generator name "@ + name@,
    }
}

/// A parse error with its description.
#[derive(Debug, Clone)]
pub struct ErrorType {
    pub kind: ErrorKind,
    pub desc: String,
}

impl ErrorType {
    /// Wraps `kind` with its default description.
    pub fn new(kind: ErrorKind) -> (r: ErrorType)
        ensures
            r.kind == kind,
            r.desc@ == parse_error_text(kind),
    {
        let mut desc = String::new();
        match &kind {
            ErrorKind::Unexpected(found, expected) => {
                desc.append("Found ");
                desc.append(kind_name(*found));
                desc.append(", expected ");
                desc.append(kind_name(*expected));
            },
            ErrorKind::Unparseable(found, term) => {
                desc.append("Cannot consume ");
                desc.append(kind_name(*found));
                desc.append(" token in ");
                desc.append(term.as_str());
            },
            ErrorKind::ExpectedOp(c, found) => {
                desc.append("Expected '");
                push_char(&mut desc, *c);
                desc.append("', found ");
                desc.append(kind_name(*found));
            },
            ErrorKind::UnknownGen(name) => {
                desc.append("Unknown generator name ");
                desc.append(name.as_str());
            },
        }
        assert(desc@ =~= parse_error_text(kind));
        ErrorType { kind, desc }
    }

    /// Wraps `kind` with a description of the caller's choosing.
    pub fn with_description(kind: ErrorKind, desc: String) -> (r: ErrorType)
        ensures
            r.kind == kind,
            r.desc@ == desc@,
    {
        ErrorType { kind, desc }
    }
}

impl Token {
    /// A copy of the token.
    pub fn copy(&self) -> (r: Token)
        ensures
            r@ == self@,
    {
        match self {
            Token::Ident(s) => Token::Ident(s.clone()),
            Token::Integer(v) => Token::Integer(*v),
            Token::Float(s) => Token::Float(s.clone()),
            Token::Oper(c) => Token::Oper(*c),
            Token::String(s) => Token::String(s.clone()),
            Token::EOF => Token::EOF,
        }
    }
}

/// Whether `t` is `param` called with the name `_` and the literal `v`.
pub open spec fn is_literal(t: GenTree, v: ParamValue) -> bool {
    &&& t.kind == FactoryKind::Param
    &&& t.params.wf()
    &&& t.params.names@.len() == 0
    &&& t.params.positional@.len() == 2
    &&& t.params.positional@[0] matches Some(ParamValue::String(s)) && s@ == seq!['_']
    &&& t.params.positional@[1] == Some(v)
}

/// Whether `t` is `param` reading the variable `name`.
pub open spec fn is_variable(t: GenTree, name: Seq<char>) -> bool {
    &&& t.kind == FactoryKind::Param
    &&& t.params.wf()
    &&& t.params.names@.len() == 0
    &&& t.params.positional@.len() == 1
    &&& t.params.positional@[0] matches Some(ParamValue::String(s)) && s@ == name
}

/// A generator node with positional arguments only.
fn node(kind: FactoryKind, args: Vec<ParamValue>) -> (r: GenTree)
    ensures
        simple_node(r, kind),
        args_of(r.params) == args@,
        r.kind == kind,
        r.params.wf(),
        r.params.names@.len() == 0,
        r.params.positional@.len() == args@.len(),
        forall|i: int| 0 <= i < args@.len() ==> r.params.positional@[i] == Some(args@[i]),
{
    let mut params = FactoryParameters::new();
    let mut args = args;
    let ghost all = args@;
    let mut rev: Vec<ParamValue> = Vec::new();
    while args.len() > 0
        invariant
            rev@.len() + args@.len() == all.len(),
            forall|i: int| 0 <= i < args@.len() ==> args@[i] == all[i],
            forall|i: int| 0 <= i < rev@.len() ==> rev@[i] == all[all.len() - 1 - i],
        decreases args@.len(),
    {
        let v = args.pop().unwrap();
        rev.push(v);
    }
    while rev.len() > 0
        invariant
            params.wf(),
            params.names@.len() == 0,
            rev@.len() + params.positional@.len() == all.len(),
            forall|i: int| 0 <= i < rev@.len() ==> rev@[i] == all[all.len() - 1 - i],
            forall|i: int| 0 <= i < params.positional@.len() ==> params.positional@[i] == Some(all[i]),
        decreases rev@.len(),
    {
        let v = rev.pop().unwrap();
        params.push_positional(v);
    }
    assert(args_of(params) =~= all);
    GenTree { kind, params }
}

/// The string `_`, the name of constants.
fn underscore() -> (r: String)
    ensures
        r@ == seq!['_'],
{
    let mut s = String::new();
    push_char(&mut s, '_');
    s
}

/// `param` called with the name `_` and the literal `v`.
fn literal(v: ParamValue) -> (r: GenTree)
    ensures
        is_literal(r, v),
{
    let mut args: Vec<ParamValue> = Vec::new();
    args.push(ParamValue::String(underscore()));
    args.push(v);
    node(FactoryKind::Param, args)
}

/// The token at `i`, or the end of input past the last one.
pub open spec fn tok_at(t: Seq<TokenView>, i: int) -> TokenView {
    if 0 <= i < t.len() {
        t[i]
    } else {
        TokenView::EOF
    }
}

/// Whether the token at `i` is the operator `c`.
pub open spec fn op_at(t: Seq<TokenView>, i: int, c: char) -> bool {
    tok_at(t, i) == TokenView::Oper(c)
}

/// Whether `c` starts a relational operator.
pub open spec fn rel_start(c: char) -> bool {
    c == '>' || c == '!' || c == '<' || c == '='
}

/// End of `gen` starting at `i`: a literal, a variable, a call of a
/// registered generator, or a parenthesized `gen_rel`.
pub open spec fn gen_end(t: Seq<TokenView>, i: int) -> Option<int>
    decreases t.len() - i, 2nat,
{
    if !(0 <= i < t.len()) {
        None
    } else {
        match t[i] {
            TokenView::Integer(_) => Some(i + 1),
            TokenView::Float(_) => Some(i + 1),
            TokenView::Ident(name) => if op_at(t, i + 1, '(') {
                match params_end(t, i + 1) {
                    Some(j) => if crate::synth::factory_named(name) is Some {
                        Some(j)
                    } else {
                        None
                    },
                    None => None,
                }
            } else {
                Some(i + 1)
            },
            TokenView::Oper('(') => match rel_end(t, i + 1) {
                Some(j) => if op_at(t, j, ')') {
                    Some(j + 1)
                } else {
                    None
                },
                None => None,
            },
            _ => None,
        }
    }
}

/// End of `gen_factors` starting at `i`.
pub open spec fn factors_end(t: Seq<TokenView>, i: int) -> Option<int>
    decreases t.len() - i, 3nat,
{
    if !(0 <= i < t.len()) {
        None
    } else {
        match gen_end(t, i) {
            Some(j) => if i < j <= t.len() {
                factors_rest(t, j)
            } else {
                None
            },
            None => None,
        }
    }
}

/// End of the `(('*' | '/') gen)*` that follows a factor ending at `j`.
pub open spec fn factors_rest(t: Seq<TokenView>, j: int) -> Option<int>
    decreases t.len() - j, 1nat,
{
    if !(0 <= j <= t.len()) {
        None
    } else if op_at(t, j, '*') || op_at(t, j, '/') {
        match gen_end(t, j + 1) {
            Some(k) => if j + 1 < k <= t.len() {
                factors_rest(t, k)
            } else {
                None
            },
            None => None,
        }
    } else {
        Some(j)
    }
}

/// End of `gen_terms` starting at `i`.
pub open spec fn terms_end(t: Seq<TokenView>, i: int) -> Option<int>
    decreases t.len() - i, 4nat,
{
    if !(0 <= i < t.len()) {
        None
    } else {
        match factors_end(t, i) {
            Some(j) => if i < j <= t.len() {
                terms_rest(t, j)
            } else {
                None
            },
            None => None,
        }
    }
}

/// End of the `(('+' | '-') gen_factors)*` that follows a term ending at `j`.
pub open spec fn terms_rest(t: Seq<TokenView>, j: int) -> Option<int>
    decreases t.len() - j, 1nat,
{
    if !(0 <= j <= t.len()) {
        None
    } else if op_at(t, j, '+') || op_at(t, j, '-') {
        match factors_end(t, j + 1) {
            Some(k) => if j + 1 < k <= t.len() {
                terms_rest(t, k)
            } else {
                None
            },
            None => None,
        }
    } else {
        Some(j)
    }
}

/// End of `gen_rel` starting at `i`.
pub open spec fn rel_end(t: Seq<TokenView>, i: int) -> Option<int>
    decreases t.len() - i, 5nat,
{
    if !(0 <= i < t.len()) {
        None
    } else {
        match terms_end(t, i) {
            Some(j) => if i < j <= t.len() {
                match tok_at(t, j) {
                    TokenView::Oper(c) => if rel_start(c) {
                        let eq = op_at(t, j + 1, '=');
                        if !eq && c != '<' && c != '>' {
                            None
                        } else {
                            rel_end(t, if eq { j + 2 } else { j + 1 })
                        }
                    } else {
                        Some(j)
                    },
                    _ => Some(j),
                }
            } else {
                None
            },
            None => None,
        }
    }
}

/// Position of the value of a `param` starting at `j`: after `name =`, if
/// it starts so.
pub open spec fn param_value_at(t: Seq<TokenView>, j: int) -> int {
    if tok_at(t, j) is Ident && op_at(t, j + 1, '=') {
        j + 2
    } else {
        j
    }
}

/// End of `param` starting at `j`.
pub open spec fn param_end(t: Seq<TokenView>, j: int) -> Option<int>
    decreases t.len() - j, 6nat,
{
    let v = param_value_at(t, j);
    if !(0 <= j && v < t.len()) {
        None
    } else {
        match t[v] {
            TokenView::String(_) => Some(v + 1),
            TokenView::Integer(_) => rel_end(t, v),
            TokenView::Float(_) => rel_end(t, v),
            TokenView::Ident(_) => rel_end(t, v),
            TokenView::Oper('(') => rel_end(t, v),
            _ => None,
        }
    }
}

/// End of the parameters that follow an opening parenthesis, from `j`.
pub open spec fn params_rest(t: Seq<TokenView>, j: int) -> Option<int>
    decreases t.len() - j, 7nat,
{
    if !(0 <= j < t.len()) {
        None
    } else if op_at(t, j, ')') {
        Some(j + 1)
    } else {
        match param_end(t, j) {
            Some(k) => if j < k < t.len() {
                if op_at(t, k, ',') {
                    params_rest(t, k + 1)
                } else if op_at(t, k, ')') {
                    Some(k + 1)
                } else {
                    None
                }
            } else {
                None
            },
            None => None,
        }
    }
}

/// End of `( param (, param)* ,? )` starting at `i`.
pub open spec fn params_end(t: Seq<TokenView>, i: int) -> Option<int>
    decreases t.len() - i, 8nat,
{
    if !(0 <= i < t.len()) || !op_at(t, i, '(') {
        None
    } else {
        params_rest(t, i + 1)
    }
}

/// End of the generators of a vector after its opening bracket, from `j`.
pub open spec fn vec_rest(t: Seq<TokenView>, j: int) -> Option<int>
    decreases t.len() - j,
{
    if !(0 <= j < t.len()) {
        None
    } else if op_at(t, j, ']') {
        Some(j + 1)
    } else {
        match rel_end(t, j) {
            Some(k) => if j < k < t.len() {
                if op_at(t, k, ',') {
                    vec_rest(t, k + 1)
                } else if op_at(t, k, ']') {
                    Some(k + 1)
                } else {
                    None
                }
            } else {
                None
            },
            None => None,
        }
    }
}

/// End of `[ gen_rel (, gen_rel)* ,? ]` starting at `i`.
pub open spec fn vec_end(t: Seq<TokenView>, i: int) -> Option<int> {
    if !(0 <= i < t.len()) || !op_at(t, i, '[') {
        None
    } else {
        vec_rest(t, i + 1)
    }
}

/// The arguments of a node whose positional slots are all filled.
pub open spec fn args_of(p: FactoryParameters) -> Seq<ParamValue> {
    p.positional@.map_values(|o: Option<ParamValue>| o.unwrap())
}

/// `g` is a `kind` node with positional arguments only, none of them taken.
pub open spec fn simple_node(g: GenTree, kind: FactoryKind) -> bool {
    &&& g.kind == kind
    &&& g.params.wf()
    &&& g.params.names@.len() == 0
    &&& forall|i: int| 0 <= i < g.params.positional@.len() ==> (#[trigger] g.params.positional@[i]) is Some
}

/// The generator an argument holds, if it holds one.
pub open spec fn gen_arg(a: ParamValue) -> Option<GenTree> {
    match a {
        ParamValue::Generator(g) => Some(g),
        _ => None,
    }
}

/// The single argument of a `kind` node held by `a`, if `a` holds one.
pub open spec fn wrapped(a: ParamValue, kind: FactoryKind) -> Option<GenTree> {
    match gen_arg(a) {
        Some(r) => if simple_node(r, kind) && args_of(r.params).len() == 1 {
            gen_arg(args_of(r.params)[0])
        } else {
            None
        },
        None => None,
    }
}

/// The operator string of a relation whose first character `c` is at `j`.
pub open spec fn rel_text(t: Seq<TokenView>, j: int, c: char) -> Seq<char> {
    if op_at(t, j + 1, '=') {
        seq![c, '=']
    } else {
        seq![c]
    }
}

/// `g` is the tree of the `gen` starting at `i`.
pub open spec fn gen_tree(g: GenTree, t: Seq<TokenView>, i: int) -> bool
    decreases t.len() - i, 2nat,
{
    if !(0 <= i < t.len()) {
        false
    } else {
        match t[i] {
            TokenView::Integer(v) => is_literal(g, ParamValue::Integer(v)),
            TokenView::Float(x) => {
                &&& g.kind == FactoryKind::Param
                &&& g.params.wf()
                &&& g.params.names@.len() == 0
                &&& g.params.positional@.len() == 2
                &&& g.params.positional@[0] matches Some(ParamValue::String(s)) && s@ == seq!['_']
                &&& g.params.positional@[1] matches Some(ParamValue::Float(y)) && y@ == x
            },
            TokenView::Ident(name) => if op_at(t, i + 1, '(') {
                crate::synth::factory_named(name) == Some(g.kind) && params_tree(g.params, t, i + 1)
            } else {
                is_variable(g, name)
            },
            TokenView::Oper('(') => rel_tree(g, t, i + 1),
            _ => false,
        }
    }
}

/// `g` is the tree of the `gen_factors` starting at `i`: the single factor,
/// or `mul` of the factors with divisors wrapped in `reciprocate`.
pub open spec fn factors_tree(g: GenTree, t: Seq<TokenView>, i: int) -> bool
    decreases t.len() - i, 3nat,
{
    match gen_end(t, i) {
        Some(j) => if i < j <= t.len() && 0 <= i {
            if op_at(t, j, '*') || op_at(t, j, '/') {
                &&& simple_node(g, FactoryKind::Mul)
                &&& args_of(g.params).len() >= 1
                &&& gen_arg(args_of(g.params)[0]) matches Some(x) && gen_tree(x, t, i)
                &&& mul_rest(args_of(g.params), 1, t, j)
            } else {
                gen_tree(g, t, i)
            }
        } else {
            false
        },
        None => false,
    }
}

/// From index `k` on, `a` holds the factors that follow position `j`.
pub open spec fn mul_rest(a: Seq<ParamValue>, k: int, t: Seq<TokenView>, j: int) -> bool
    decreases t.len() - j, 1nat,
{
    if !(0 <= j <= t.len() && 0 <= k) {
        false
    } else if op_at(t, j, '*') || op_at(t, j, '/') {
        match gen_end(t, j + 1) {
            Some(e) => {
                &&& j + 1 < e <= t.len()
                &&& k < a.len()
                &&& if op_at(t, j, '*') {
                    gen_arg(a[k]) matches Some(x) && gen_tree(x, t, j + 1)
                } else {
                    wrapped(a[k], FactoryKind::Reciprocate) matches Some(x) && gen_tree(x, t, j + 1)
                }
                &&& mul_rest(a, k + 1, t, e)
            },
            None => false,
        }
    } else {
        a.len() == k
    }
}

/// `g` is the tree of the `gen_terms` starting at `i`: the single term, or
/// `add` of the terms with subtracted ones wrapped in `negate`.
pub open spec fn terms_tree(g: GenTree, t: Seq<TokenView>, i: int) -> bool
    decreases t.len() - i, 4nat,
{
    match factors_end(t, i) {
        Some(j) => if i < j <= t.len() && 0 <= i {
            if op_at(t, j, '+') || op_at(t, j, '-') {
                &&& simple_node(g, FactoryKind::Add)
                &&& args_of(g.params).len() >= 1
                &&& gen_arg(args_of(g.params)[0]) matches Some(x) && factors_tree(x, t, i)
                &&& add_rest(args_of(g.params), 1, t, j)
            } else {
                factors_tree(g, t, i)
            }
        } else {
            false
        },
        None => false,
    }
}

/// From index `k` on, `a` holds the terms that follow position `j`.
pub open spec fn add_rest(a: Seq<ParamValue>, k: int, t: Seq<TokenView>, j: int) -> bool
    decreases t.len() - j, 1nat,
{
    if !(0 <= j <= t.len() && 0 <= k) {
        false
    } else if op_at(t, j, '+') || op_at(t, j, '-') {
        match factors_end(t, j + 1) {
            Some(e) => {
                &&& j + 1 < e <= t.len()
                &&& k < a.len()
                &&& if op_at(t, j, '+') {
                    gen_arg(a[k]) matches Some(x) && factors_tree(x, t, j + 1)
                } else {
                    wrapped(a[k], FactoryKind::Negate) matches Some(x) && factors_tree(x, t, j + 1)
                }
                &&& add_rest(a, k + 1, t, e)
            },
            None => false,
        }
    } else {
        a.len() == k
    }
}

/// `g` is the tree of the `gen_rel` starting at `i`: the terms, or
/// `rel(left, op, right)` with the operator string as written.
pub open spec fn rel_tree(g: GenTree, t: Seq<TokenView>, i: int) -> bool
    decreases t.len() - i, 5nat,
{
    match terms_end(t, i) {
        Some(j) => if i < j <= t.len() && 0 <= i {
            match tok_at(t, j) {
                TokenView::Oper(c) => if rel_start(c) {
                    let k = if op_at(t, j + 1, '=') {
                        j + 2
                    } else {
                        j + 1
                    };
                    &&& simple_node(g, FactoryKind::Rel)
                    &&& args_of(g.params).len() == 3
                    &&& gen_arg(args_of(g.params)[0]) matches Some(l) && terms_tree(l, t, i)
                    &&& args_of(g.params)[1] matches ParamValue::String(s) && s@ == rel_text(t, j, c)
                    &&& gen_arg(args_of(g.params)[2]) matches Some(r) && rel_tree(r, t, k)
                } else {
                    terms_tree(g, t, i)
                },
                _ => terms_tree(g, t, i),
            }
        } else {
            false
        },
        None => false,
    }
}

/// `a` is the value of a parameter whose value starts at `v`: the string,
/// or the tree of a `gen_rel`.
pub open spec fn value_tree(a: ParamValue, t: Seq<TokenView>, v: int) -> bool
    decreases t.len() - v, 6nat,
{
    match tok_at(t, v) {
        TokenView::String(s) => a matches ParamValue::String(x) && x@ == s,
        _ => gen_arg(a) matches Some(g) && rel_tree(g, t, v),
    }
}

/// Whether the parameters from position `j` on name `nm`.
pub open spec fn named_from(t: Seq<TokenView>, j: int, nm: Seq<char>) -> bool
    decreases t.len() - j,
{
    if !(0 <= j < t.len()) || op_at(t, j, ')') {
        false
    } else if tok_at(t, j) == TokenView::Ident(nm) && op_at(t, j + 1, '=') {
        true
    } else {
        match param_end(t, j) {
            Some(k) => j < k && op_at(t, k, ',') && named_from(t, k + 1, nm),
            None => false,
        }
    }
}

/// `p` holds the parameters from position `j` on, the next positional one
/// at index `n`: positional ones in order, and each named one under its
/// name unless the same name comes again later.
pub open spec fn params_rest_tree(p: FactoryParameters, t: Seq<TokenView>, j: int, n: int) -> bool
    decreases t.len() - j, 7nat,
{
    if !(0 <= j < t.len() && 0 <= n) {
        false
    } else if op_at(t, j, ')') {
        p.positional@.len() == n
    } else {
        match param_end(t, j) {
            Some(k) => {
                let v = param_value_at(t, j);
                let named = v == j + 2;
                let m = if named {
                    n
                } else {
                    n + 1
                };
                &&& j < k < t.len()
                &&& if named {
                    tok_at(t, j) matches TokenView::Ident(nm) && ((op_at(t, k, ',') && named_from(
                        t,
                        k + 1,
                        nm,
                    )) || (p.lookup(nm, -1) matches Some(a) && value_tree(a, t, v)))
                } else {
                    n < p.positional@.len() && (p.positional@[n] matches Some(a) && value_tree(a, t, v))
                }
                &&& if op_at(t, k, ',') {
                    params_rest_tree(p, t, k + 1, m)
                } else {
                    op_at(t, k, ')') && p.positional@.len() == m
                }
            },
            None => false,
        }
    }
}

/// `p` holds the parameters in the parentheses opening at `i`.
pub open spec fn params_tree(p: FactoryParameters, t: Seq<TokenView>, i: int) -> bool
    decreases t.len() - i, 8nat,
{
    0 <= i < t.len() && op_at(t, i, '(') && params_rest_tree(p, t, i + 1, 0)
}

/// From index `k` on, `v` holds the trees of the vector's entries from `j` on.
pub open spec fn vec_rest_tree(v: Seq<GenTree>, k: int, t: Seq<TokenView>, j: int) -> bool
    decreases t.len() - j,
{
    if !(0 <= j < t.len() && 0 <= k) {
        false
    } else if op_at(t, j, ']') {
        v.len() == k
    } else {
        match rel_end(t, j) {
            Some(e) => {
                &&& j < e < t.len()
                &&& k < v.len()
                &&& rel_tree(v[k], t, j)
                &&& if op_at(t, e, ',') {
                    vec_rest_tree(v, k + 1, t, e + 1)
                } else {
                    op_at(t, e, ']') && v.len() == k + 1
                }
            },
            None => false,
        }
    }
}

/// Reads generator trees from a list of tokens that ends at the end of
/// input.
pub struct Parser {
    toks: Vec<Token>,
    pos: usize,
}

impl Parser {
    /// The tokens, ending with the end of input and holding it nowhere else.
    pub closed spec fn tokens(&self) -> Seq<TokenView> {
        self.toks@.map_values(|t: Token| t@)
    }

    pub closed spec fn position(&self) -> nat {
        self.pos as nat
    }

    pub closed spec fn wf(&self) -> bool {
        &&& self.toks@.len() >= 1
        &&& self.pos < self.toks@.len()
        &&& self.toks@.last()@ is EOF
        &&& forall|i: int| 0 <= i < self.toks@.len() - 1 ==> !(self.toks@[i]@ is EOF)
    }

    /// The token under the cursor.
    pub closed spec fn current(&self) -> TokenView {
        tok_at(self.tokens(), self.pos as int)
    }

    /// The token after the cursor, or the end of input.
    pub closed spec fn following(&self) -> TokenView {
        tok_at(self.tokens(), self.pos + 1)
    }

    /// Number of tokens before the end of input that are still to be read.
    pub closed spec fn left(&self) -> nat {
        (self.toks@.len() - self.pos) as nat
    }

    /// Both parsers read the same tokens.
    pub closed spec fn same_tokens(&self, o: &Parser) -> bool {
        self.toks@ == o.toks@
    }

    /// The parser went forward over the same tokens.
    pub closed spec fn advanced(&self, o: &Parser) -> bool {
        &&& self.wf()
        &&& self.toks@ == o.toks@
        &&& self.pos >= o.pos
    }

    /// Reads every token of `tzr` and stands at the first.
    pub fn new(tzr: Tokenizer) -> (r: Result<Parser, TokenizerError>)
        requires
            tzr.wf(),
        ensures
            match r {
                Ok(p) => p.wf() && p.position() == 0,
                Err(_) => true,
            },
            forall|fuel: nat|
                tzr.depth() + fuel <= MAX_INCLUDE_RECURSIONS ==> match #[trigger] lex_all(
                    tzr.stream(),
                    tzr.source_table(),
                    fuel,
                ) {
                    Some(Ok(l)) => r matches Ok(p) && p.tokens() == l,
                    Some(Err(o)) => r matches Err(e) && reports_out(e, o),
                    None => true,
                },
    {
        let mut tzr = tzr;
        let toks = tzr.tokens()?;
        Ok(Parser { toks, pos: 0 })
    }

    /// Steps back over the token just read.
    pub fn push_back(&mut self)
        requires
            old(self).wf(),
            old(self).position() > 0,
        ensures
            final(self).wf(),
            final(self).same_tokens(old(self)),
            final(self).position() == old(self).position() - 1,
    {
        self.pos = self.pos - 1;
    }

    /// The token under the cursor.
    pub fn cur_token(&self) -> (r: &Token)
        requires
            self.wf(),
        ensures
            r@ == self.current(),
    {
        &self.toks[self.pos]
    }

    fn advance(&mut self)
        requires
            old(self).wf(),
        ensures
            final(self).wf(),
            final(self).toks@ == old(self).toks@,
            final(self).same_tokens(old(self)),
            !(old(self).current() is EOF) ==> final(self).position() == old(self).position() + 1,
            old(self).current() is EOF ==> final(self).position() == old(self).position(),
    {
        let n = self.toks.len();
        if self.toks[self.pos].to_type() != TokType::EOF {
            assert(self.pos + 1 < n);
            self.pos = self.pos + 1;
        }
    }

    /// Takes the token under the cursor if it has kind `ty`.
    pub fn expect(&mut self, ty: TokType) -> (r: Result<Token, ErrorType>)
        requires
            old(self).wf(),
        ensures
            final(self).advanced(old(self)),
            tok_type(old(self).current()) == ty ==> match r {
                Ok(t) => t@ == old(self).current() && (ty != TokType::EOF ==> final(self).position()
                    == old(self).position() + 1),
                Err(_) => false,
            },
            tok_type(old(self).current()) != ty ==> final(self).position() == old(self).position() && match r {
                Err(e) => e.kind == ErrorKind::Unexpected(tok_type(old(self).current()), ty),
                Ok(_) => false,
            },
    {
        let found = self.toks[self.pos].to_type();
        if found != ty {
            return Err(ErrorType::new(ErrorKind::Unexpected(found, ty)));
        }
        let t = self.toks[self.pos].copy();
        self.advance();
        Ok(t)
    }

    /// Takes an identifier.
    pub fn expect_ident(&mut self) -> (r: Result<String, ErrorType>)
        requires
            old(self).wf(),
        ensures
            final(self).advanced(old(self)),
            match old(self).current() {
                TokenView::Ident(s) => match r {
                    Ok(x) => x@ == s && final(self).position() == old(self).position() + 1,
                    Err(_) => false,
                },
                _ => r is Err && final(self).position() == old(self).position(),
            },
    {
        match self.expect(TokType::Ident)? {
            Token::Ident(s) => Ok(s),
            _ => Err(ErrorType::new(ErrorKind::Unexpected(TokType::Ident, TokType::Ident))),
        }
    }

    /// Takes the operator `oper`.
    pub fn expect_op(&mut self, oper: char) -> (r: Result<(), ErrorType>)
        requires
            old(self).wf(),
        ensures
            final(self).advanced(old(self)),
            old(self).current() == TokenView::Oper(oper) ==> r is Ok && final(self).position()
                == old(self).position() + 1,
            old(self).current() != TokenView::Oper(oper) ==> final(self).position() == old(self).position()
                && match r {
                Err(e) => e.kind == ErrorKind::ExpectedOp(oper, tok_type(old(self).current())),
                Ok(_) => false,
            },
    {
        match self.toks[self.pos] {
            Token::Oper(c) => {
                if c == oper {
                    self.advance();
                    return Ok(());
                }
            },
            _ => {},
        }
        Err(ErrorType::new(ErrorKind::ExpectedOp(oper, self.toks[self.pos].to_type())))
    }

    /// Whether the token under the cursor is the operator `oper`.
    pub fn peek_op(&self, oper: char) -> (r: bool)
        requires
            self.wf(),
        ensures
            r == (self.current() == TokenView::Oper(oper)),
    {
        match self.toks[self.pos] {
            Token::Oper(c) => c == oper,
            _ => false,
        }
    }

    /// `[ gen_rel (, gen_rel)* ,? ]`: one generator per voice.
    pub fn parse_gen_vec(&mut self) -> (r: Result<Vec<GenTree>, ErrorType>)
        requires
            old(self).wf(),
        ensures
            final(self).advanced(old(self)),
            match vec_end(old(self).tokens(), old(self).position() as int) {
                Some(e) => r is Ok && final(self).position() == e,
                None => r is Err,
            },
            match r {
                Ok(v) => op_at(old(self).tokens(), old(self).position() as int, '[') && vec_rest_tree(v@, 0, old(self).tokens(), old(self).position() as int + 1),
                Err(e) => !op_at(old(self).tokens(), old(self).position() as int, '[') ==> e.kind == ErrorKind::ExpectedOp(
                    '[',
                    tok_type(old(self).current()),
                ),
            },
    {
        self.expect_op('[')?;
        self.vec_tail(Vec::new())
    }

    /// The entries of a vector from the cursor on, appended to `done`.
    #[verifier::rlimit(100)]
    fn vec_tail(&mut self, done: Vec<GenTree>) -> (r: Result<Vec<GenTree>, ErrorType>)
        requires
            old(self).wf(),
        ensures
            final(self).advanced(old(self)),
            match vec_rest(old(self).tokens(), old(self).position() as int) {
                Some(e) => r is Ok && final(self).position() == e,
                None => r is Err,
            },
            match r {
                Ok(v) => v@.len() >= done@.len() && v@.subrange(0, done@.len() as int) == done@
                    && vec_rest_tree(v@, done@.len() as int, old(self).tokens(), old(self).position() as int),
                Err(_) => true,
            },
        decreases old(self).left(),
    {
        let mut done = done;
        if self.expect_op(']').is_ok() {
            return Ok(done);
        }
        let g = self.parse_gen_rel()?;
        done.push(g);
        if self.expect_op(',').is_err() {
            self.expect_op(']')?;
            return Ok(done);
        }
        let ghost mid = done@;
        let r = self.vec_tail(done);
        proof {
            if r is Ok {
                let v = r->Ok_0;
                assert(v@.subrange(0, mid.len() - 1) =~= mid.subrange(0, mid.len() - 1));
                assert(v@[mid.len() - 1] == mid[mid.len() - 1]);
            }
        }
        r
    }

    /// `gen_terms (relop gen_rel)?`, giving `rel(left, op, right)`.
    pub fn parse_gen_rel(&mut self) -> (r: Result<GenTree, ErrorType>)
        requires
            old(self).wf(),
        ensures
            final(self).advanced(old(self)),
            match rel_end(old(self).tokens(), old(self).position() as int) {
                Some(e) => r is Ok && final(self).position() == e,
                None => r is Err,
            },
            r is Ok ==> final(self).position() > old(self).position(),
            match r {
                Ok(x) => rel_tree(x, old(self).tokens(), old(self).position() as int),
                Err(_) => true,
            },
        decreases old(self).left(), 5nat,
    {
        let ghost t = self.tokens();
        let ghost i = self.pos as int;
        let left = self.parse_gen_terms()?;
        let ghost j = self.pos as int;
        let c = match self.cur_token() {
            Token::Oper(c) => *c,
            _ => {
                return Ok(left);
            },
        };
        if !(c == '>' || c == '!' || c == '<' || c == '=') {
            return Ok(left);
        }
        self.advance();
        let eq = self.peek_op('=');
        let mut op = String::new();
        push_char(&mut op, c);
        if eq {
            self.advance();
            push_char(&mut op, '=');
        } else if c != '<' && c != '>' {
            let mut term = String::new();
            term.append("rel expr");
            return Err(ErrorType::new(ErrorKind::Unparseable(TokType::Oper, term)));
        }
        assert(op@ =~= rel_text(t, j, c));
        let right = self.parse_gen_rel()?;
        let mut args: Vec<ParamValue> = Vec::new();
        args.push(ParamValue::Generator(left));
        args.push(ParamValue::String(op));
        args.push(ParamValue::Generator(right));
        Ok(node(FactoryKind::Rel, args))
    }

    /// `gen_factors (('+' | '-') gen_factors)*`, giving `add` of the terms, a
    /// subtracted term wrapped in `negate`.
    pub fn parse_gen_terms(&mut self) -> (r: Result<GenTree, ErrorType>)
        requires
            old(self).wf(),
        ensures
            final(self).advanced(old(self)),
            match terms_end(old(self).tokens(), old(self).position() as int) {
                Some(e) => r is Ok && final(self).position() == e,
                None => r is Err,
            },
            r is Ok ==> final(self).position() > old(self).position(),
            match r {
                Ok(x) => terms_tree(x, old(self).tokens(), old(self).position() as int),
                Err(_) => true,
            },
        decreases old(self).left(), 4nat,
    {
        let ghost t = self.tokens();
        let ghost i = self.pos as int;
        let first = self.parse_gen_factors()?;
        if !self.peek_op('+') && !self.peek_op('-') {
            return Ok(first);
        }
        let ghost j = self.pos as int;
        let mut args: Vec<ParamValue> = Vec::new();
        args.push(ParamValue::Generator(first));
        let ghost a0 = args@;
        let args = self.terms_tail(args)?;
        assert(args@.subrange(0, 1)[0] == args@[0]);
        assert(args@[0] == a0[0]);
        let r = node(FactoryKind::Add, args);
        assert(gen_arg(args_of(r.params)[0]) == Some(first));
        assert(terms_tree(r, t, i));
        Ok(r)
    }

    /// The `(('+' | '-') gen_factors)*` from the cursor on, appended to `args`.
    #[verifier::rlimit(100)]
    fn terms_tail(&mut self, args: Vec<ParamValue>) -> (r: Result<Vec<ParamValue>, ErrorType>)
        requires
            old(self).wf(),
        ensures
            final(self).advanced(old(self)),
            match terms_rest(old(self).tokens(), old(self).position() as int) {
                Some(e) => r is Ok && final(self).position() == e,
                None => r is Err,
            },
            match r {
                Ok(v) => v@.len() >= args@.len() && v@.subrange(0, args@.len() as int) == args@
                    && add_rest(v@, args@.len() as int, old(self).tokens(), old(self).position() as int),
                Err(_) => true,
            },
        decreases old(self).left(), 1nat,
    {
        let ghost t = self.tokens();
        let ghost j = self.pos as int;
        let ghost k = args@.len() as int;
        let mut args = args;
        let first_op = self.peek_op('+');
        if !first_op && !self.peek_op('-') {
            return Ok(args);
        }
        self.advance();
        let g = self.parse_gen_factors()?;
        let ghost gv = g;
        if first_op {
            args.push(ParamValue::Generator(g));
        } else {
            let mut one: Vec<ParamValue> = Vec::new();
            one.push(ParamValue::Generator(g));
            let w = node(FactoryKind::Negate, one);
            assert(args_of(w.params)[0] == ParamValue::Generator(gv));
            args.push(ParamValue::Generator(w));
        }
        let ghost mid = args@;
        let r = self.terms_tail(args);
        proof {
            if r is Ok {
                let v = r->Ok_0;
                assert(v@[k] == mid[k]);
                assert(v@.subrange(0, k) =~= mid.subrange(0, k));
                assert(add_rest(v@, k, t, j));
            }
        }
        r
    }

    /// `gen (('*' | '/') gen)*`, giving `mul` of the factors, a divisor
    /// wrapped in `reciprocate`.
    pub fn parse_gen_factors(&mut self) -> (r: Result<GenTree, ErrorType>)
        requires
            old(self).wf(),
        ensures
            final(self).advanced(old(self)),
            match factors_end(old(self).tokens(), old(self).position() as int) {
                Some(e) => r is Ok && final(self).position() == e,
                None => r is Err,
            },
            r is Ok ==> final(self).position() > old(self).position(),
            match r {
                Ok(x) => factors_tree(x, old(self).tokens(), old(self).position() as int),
                Err(_) => true,
            },
        decreases old(self).left(), 3nat,
    {
        let ghost t = self.tokens();
        let ghost i = self.pos as int;
        let first = self.parse_gen()?;
        if !self.peek_op('*') && !self.peek_op('/') {
            return Ok(first);
        }
        let ghost j = self.pos as int;
        let mut args: Vec<ParamValue> = Vec::new();
        args.push(ParamValue::Generator(first));
        let ghost a0 = args@;
        let args = self.factors_tail(args)?;
        assert(args@.subrange(0, 1)[0] == args@[0]);
        assert(args@[0] == a0[0]);
        let r = node(FactoryKind::Mul, args);
        assert(gen_arg(args_of(r.params)[0]) == Some(first));
        assert(factors_tree(r, t, i));
        Ok(r)
    }

    /// The `(('*' | '/') gen)*` from the cursor on, appended to `args`.
    #[verifier::rlimit(100)]
    fn factors_tail(&mut self, args: Vec<ParamValue>) -> (r: Result<Vec<ParamValue>, ErrorType>)
        requires
            old(self).wf(),
        ensures
            final(self).advanced(old(self)),
            match factors_rest(old(self).tokens(), old(self).position() as int) {
                Some(e) => r is Ok && final(self).position() == e,
                None => r is Err,
            },
            match r {
                Ok(v) => v@.len() >= args@.len() && v@.subrange(0, args@.len() as int) == args@
                    && mul_rest(v@, args@.len() as int, old(self).tokens(), old(self).position() as int),
                Err(_) => true,
            },
        decreases old(self).left(), 1nat,
    {
        let ghost t = self.tokens();
        let ghost j = self.pos as int;
        let ghost k = args@.len() as int;
        let mut args = args;
        let first_op = self.peek_op('*');
        if !first_op && !self.peek_op('/') {
            return Ok(args);
        }
        self.advance();
        let g = self.parse_gen()?;
        let ghost gv = g;
        if first_op {
            args.push(ParamValue::Generator(g));
        } else {
            let mut one: Vec<ParamValue> = Vec::new();
            one.push(ParamValue::Generator(g));
            let w = node(FactoryKind::Reciprocate, one);
            assert(args_of(w.params)[0] == ParamValue::Generator(gv));
            args.push(ParamValue::Generator(w));
        }
        let ghost mid = args@;
        let r = self.factors_tail(args);
        proof {
            if r is Ok {
                let v = r->Ok_0;
                assert(v@[k] == mid[k]);
                assert(v@.subrange(0, k) =~= mid.subrange(0, k));
                assert(mul_rest(v@, k, t, j));
            }
        }
        r
    }

    /// A literal, a variable, a generator call or a parenthesized expression.
    pub fn parse_gen(&mut self) -> (r: Result<GenTree, ErrorType>)
        requires
            old(self).wf(),
        ensures
            final(self).advanced(old(self)),
            match gen_end(old(self).tokens(), old(self).position() as int) {
                Some(e) => r is Ok && final(self).position() == e,
                None => r is Err,
            },
            r is Ok ==> final(self).position() > old(self).position(),
            match r {
                Ok(x) => gen_tree(x, old(self).tokens(), old(self).position() as int),
                Err(e) => match old(self).current() {
                    TokenView::Ident(name) => (op_at(old(self).tokens(), old(self).position() as int + 1, '(') && params_end(old(self).tokens(), old(self).position() as int + 1) is Some
                        && crate::synth::factory_named(name) is None) ==> (e.kind matches ErrorKind::UnknownGen(n) && n@ == name),
                    TokenView::Integer(_) => false,
                    TokenView::Float(_) => false,
                    TokenView::Oper('(') => true,
                    other => e.kind matches ErrorKind::Unparseable(k, s) && k == tok_type(other)
                        && s@ == "gen"@,
                },
            },
        decreases old(self).left(), 2nat,
    {
        match self.cur_token() {
            Token::Integer(v) => {
                let v = *v;
                self.advance();
                Ok(literal(ParamValue::Integer(v)))
            },
            Token::Float(s) => {
                let s = s.clone();
                self.advance();
                Ok(literal(ParamValue::Float(s)))
            },
            Token::Ident(_) => {
                let name = self.expect_ident()?;
                if self.peek_op('(') {
                    let params = self.parse_factory_params()?;
                    match FactoryKind::from_name(name.as_str()) {
                        Some(kind) => Ok(GenTree { kind, params }),
                        None => Err(ErrorType::new(ErrorKind::UnknownGen(name))),
                    }
                } else {
                    let mut args: Vec<ParamValue> = Vec::new();
                    args.push(ParamValue::String(name));
                    Ok(node(FactoryKind::Param, args))
                }
            },
            Token::Oper('(') => {
                self.advance();
                let ret = self.parse_gen_rel()?;
                self.expect_op(')')?;
                Ok(ret)
            },
            other => {
                let k = other.to_type();
                let mut term = String::new();
                term.append("gen");
                Err(ErrorType::new(ErrorKind::Unparseable(k, term)))
            },
        }
    }

    /// `( param (, param)* ,? )`: the arguments of a generator call.
    pub fn parse_factory_params(&mut self) -> (r: Result<FactoryParameters, ErrorType>)
        requires
            old(self).wf(),
        ensures
            final(self).advanced(old(self)),
            match params_end(old(self).tokens(), old(self).position() as int) {
                Some(e) => r is Ok && final(self).position() == e,
                None => r is Err,
            },
            r is Ok ==> final(self).position() > old(self).position(),
            match r {
                Ok(p) => p.wf() && params_tree(p, old(self).tokens(), old(self).position() as int),
                Err(_) => true,
            },
        decreases old(self).left(), 8nat,
    {
        self.expect_op('(')?;
        self.params_tail(FactoryParameters::new(), 0)
    }

    /// The parameters from the cursor on, added to `p`, whose next
    /// positional index is `n`.
    #[verifier::rlimit(100)]
    fn params_tail(&mut self, p: FactoryParameters, n: usize) -> (r: Result<FactoryParameters, ErrorType>)
        requires
            old(self).wf(),
            p.wf(),
            p.positional@.len() == n,
            n <= old(self).pos,
        ensures
            final(self).advanced(old(self)),
            match params_rest(old(self).tokens(), old(self).position() as int) {
                Some(e) => r is Ok && final(self).position() == e,
                None => r is Err,
            },
            match r {
                Ok(q) => q.wf() && q.positional@.len() >= n && q.positional@.subrange(0, n as int)
                    == p.positional@ && params_rest_tree(q, old(self).tokens(), old(self).position() as int, n as int) && forall|nm: Seq<char>|
                    !named_from(old(self).tokens(), old(self).position() as int, nm) ==> #[trigger] q.lookup(nm, -1) == p.lookup(nm, -1),
                Err(_) => true,
            },
        decreases old(self).left(), 7nat,
    {
        let mut p = p;
        if self.expect_op(')').is_ok() {
            return Ok(p);
        }
        let ghost before = p;
        let (nm, vl, new_ctr) = self.parse_param(n)?;
        match nm {
            Some(name) => p.insert_named(name, vl),
            None => p.push_positional(vl),
        }
        if self.expect_op(',').is_err() {
            self.expect_op(')')?;
            return Ok(p);
        }
        let ghost mid = p;
        let r = self.params_tail(p, new_ctr);
        proof {
            if r is Ok {
                let q = r->Ok_0;
                assert(q.positional@.subrange(0, n as int) =~= mid.positional@.subrange(0, n as int));
                if new_ctr > n {
                    assert(q.positional@[n as int] == mid.positional@[n as int]);
                }
            }
        }
        r
    }

    /// `name = value` or `value`, where a value is a string or a generator
    /// expression.  Gives the name (none for a positional argument), the
    /// value, and the positional counter, advanced past a positional one.
    pub fn parse_param(&mut self, pos: usize) -> (r: Result<(Option<String>, ParamValue, usize), ErrorType>)
        requires
            old(self).wf(),
            pos <= old(self).position(),
        ensures
            final(self).advanced(old(self)),
            match param_end(old(self).tokens(), old(self).position() as int) {
                Some(e) => r is Ok && final(self).position() == e,
                None => r is Err,
            },
            match r {
                Ok((nm, v, ctr)) => final(self).position() > old(self).position()
                    && (nm is Some ==> ctr == pos) && (nm is None ==> ctr == pos + 1)
                    && ctr <= final(self).position()
                    && (nm is Some <==> param_value_at(old(self).tokens(), old(self).position() as int) == old(self).position() as int + 2)
                    && (nm matches Some(x) ==> tok_at(old(self).tokens(), old(self).position() as int) == TokenView::Ident(x@))
                    && value_tree(v, old(self).tokens(), param_value_at(old(self).tokens(), old(self).position() as int)),
                Err(_) => true,
            },
        decreases old(self).left(), 6nat,
    {
        let ghost t = self.tokens();
        let ghost j = self.pos as int;
        let n = self.toks.len();
        let mut ctr = pos;
        let mut name: Option<String> = None;
        let is_ident = match self.cur_token() {
            Token::Ident(_) => true,
            _ => false,
        };
        if is_ident {
            let nm = self.expect_ident()?;
            if self.expect_op('=').is_ok() {
                name = Some(nm);
            } else {
                self.push_back();
                assert(ctr < n);
                ctr = ctr + 1;
            }
        } else {
            assert(ctr < n);
            ctr = ctr + 1;
        }
        assert(self.left() <= old(self).left());
        assert(self.pos as int == param_value_at(t, j));
        let value = match self.cur_token() {
            Token::String(s) => {
                let s = s.clone();
                self.advance();
                ParamValue::String(s)
            },
            Token::Integer(_) | Token::Float(_) | Token::Ident(_) | Token::Oper('(') => {
                ParamValue::Generator(self.parse_gen_rel()?)
            },
            other => {
                let k = other.to_type();
                let mut term = String::new();
                term.append("param value");
                return Err(ErrorType::new(ErrorKind::Unparseable(k, term)));
            },
        };
        Ok((name, value, ctr))
    }
}

} // verus!
