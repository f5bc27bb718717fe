use vstd::prelude::*;

use crate::data::{
    edge_path_ok, indexed, nodes_view, path_at, record_all, Binding, Data, Edge, EdgeKey, NodeView,
    RuleKey,
};
use crate::error::{is_syntax_error, ErrorKind, ParseError};
use crate::lexer::{
    error_at, eval_string, next_token, skip_ws, push_range, token_after, token_of, Lexer, Location, SourceId, Token, TokenKind, L,
};
use crate::source::{loc_text, loc_valid, Source};

verus! {

/// What a rule-name error says about the model it stopped on: a duplicate rule name is
/// the name of a rule already there, an unknown rule name is the name of none. Other
/// errors are pinned by the grammar specs (`items_spec` and those it uses).
pub open spec fn rule_error_explained(data: &Data, srcs: Seq<Seq<u8>>, e: ParseError) -> bool {
    &&& e.kind == ErrorKind::DuplicateRule ==> loc_valid(srcs, e.loc) && exists|k: u64|
        #[trigger] data.rule_map().contains_key(k) && data.rule_map()[k].name.elem@ == loc_text(
            srcs,
            e.loc,
        )
    &&& e.kind == ErrorKind::UnknownRule ==> loc_valid(srcs, e.loc) && forall|k: u64|
        #[trigger] data.rule_map().contains_key(k) ==> data.rule_map()[k].name.elem@ != loc_text(
            srcs,
            e.loc,
        )
}

/// The first token from `p` that is not a comment has kind `k` and spans `loc`.
pub open spec fn first_token_is(t: Seq<u8>, p: int, k: TokenKind, loc: Location, id: SourceId) -> bool {
    next_token(t, p) == Ok::<(TokenKind, int, int), int>((k, loc.start as int, loc.stop as int))
        && loc.source_id == id
}

/// The paths of a `build` statement lie in file `id`: the outputs in `[p, rule_loc.start)`
/// and the inputs in `[rule_loc.stop, q)`.
pub open spec fn edge_paths_placed(
    outs: Seq<L<Vec<u8>>>,
    ins: Seq<L<Vec<u8>>>,
    rule_loc: Location,
    id: SourceId,
    p: int,
    q: int,
) -> bool {
    &&& rule_loc.source_id == id
    &&& p <= rule_loc.start < rule_loc.stop <= q
    &&& forall|j: int|
        0 <= j < outs.len() ==> (#[trigger] outs[j]).loc.source_id == id && p <= outs[j].loc.start
            < outs[j].loc.stop <= rule_loc.start
    &&& forall|j: int|
        0 <= j < ins.len() ==> (#[trigger] ins[j]).loc.source_id == id && rule_loc.stop
            <= ins[j].loc.start < ins[j].loc.stop <= q
}

/// The next token must be of kind `kind`: its location and where the lexer then stands.
pub open spec fn expect_spec(t: Seq<u8>, id: SourceId, p: int, kind: TokenKind) -> Result<
    (Location, int),
    ParseError,
> {
    match next_token(t, p) {
        Err(pos) => Err(error_at(ErrorKind::UnexpectedChar, pos, id)),
        Ok((k, s, e)) => if k == kind {
            Ok((token_of(k, s, e, id).loc, token_after(t, k, e)))
        } else {
            Err(ParseError { kind: ErrorKind::UnexpectedToken, loc: token_of(k, s, e, id).loc })
        },
    }
}

/// `key = value` up to the end of the line: the key's location and where the lexer
/// then stands.
pub open spec fn let_spec(t: Seq<u8>, id: SourceId, p: int) -> Result<(Location, int), ParseError> {
    match next_token(t, p) {
        Err(pos) => Err(error_at(ErrorKind::UnexpectedChar, pos, id)),
        Ok((k, s, e)) => if k == TokenKind::Ident || k == TokenKind::Pool {
            match expect_spec(t, id, token_after(t, k, e), TokenKind::Equals) {
                Err(x) => Err(x),
                Ok((_, q)) => match eval_string(t, q, false) {
                    Ok((_, _, end)) => Ok((token_of(k, s, e, id).loc, end)),
                    Err((kind, pos)) => Err(error_at(kind, pos, id)),
                },
            }
        } else {
            Err(ParseError { kind: ErrorKind::UnexpectedToken, loc: token_of(k, s, e, id).loc })
        },
    }
}

/// The value of a successful `key = value` at `p`: its decoded text and where it was
/// written.
pub open spec fn let_value(t: Seq<u8>, id: SourceId, p: int) -> (Seq<u8>, Location) {
    let none = (Seq::<u8>::empty(), Location { start: 0, stop: 0, source_id: id });
    match next_token(t, p) {
        Ok((k, s, e)) => match expect_spec(t, id, token_after(t, k, e), TokenKind::Equals) {
            Ok((_, q)) => match eval_string(t, q, false) {
                Ok((v, stop, _)) => (v, Location { start: q as usize, stop: stop as usize, source_id: id }),
                Err(_) => none,
            },
            Err(_) => none,
        },
        Err(_) => none,
    }
}

/// The decoded path of a successful `default <path>` at `p`.
pub open spec fn default_value(t: Seq<u8>, p: int) -> Seq<u8> {
    match eval_string(t, p, true) {
        Ok((v, _, _)) => v,
        Err(_) => Seq::empty(),
    }
}

/// The bytes of `command`.
pub open spec fn command_word() -> Seq<u8> {
    seq![99u8, 111, 109, 109, 97, 110, 100]
}

/// The indented bindings from `p`: whether one binds `command`, and where they end.
pub open spec fn bindings_spec(t: Seq<u8>, id: SourceId, p: int) -> Result<(bool, int), ParseError>
    decreases t.len() - p,
{
    match next_token(t, p) {
        Err(pos) => Err(error_at(ErrorKind::UnexpectedChar, pos, id)),
        Ok((k, s, e)) => if k != TokenKind::Indent {
            Ok((false, p))
        } else {
            match let_spec(t, id, token_after(t, k, e)) {
                Err(x) => Err(x),
                Ok((key, q)) => if p < q <= t.len() {
                    with_command(
                        t.subrange(key.start as int, key.stop as int) == command_word(),
                        bindings_spec(t, id, q),
                    )
                } else {
                    Err(ParseError { kind: ErrorKind::UnexpectedToken, loc: key })
                },
            }
        },
    }
}

pub open spec fn with_command(h: bool, r: Result<(bool, int), ParseError>) -> Result<
    (bool, int),
    ParseError,
> {
    match r {
        Ok((h2, q)) => Ok((h || h2, q)),
        Err(x) => Err(x),
    }
}

/// The names of the rules in `m`.
pub open spec fn rule_names(m: Map<u64, crate::data::Rule>) -> Set<Seq<u8>> {
    Set::new(|n: Seq<u8>| exists|k: u64| m.contains_key(k) && #[trigger] m[k].name.elem@ == n)
}

/// `rule <name>` and its bindings, given the names taken and whether the rule table is
/// full: the name's location and where the lexer then stands.
#[verifier::opaque]
pub open spec fn rule_spec(t: Seq<u8>, id: SourceId, p: int, names: Set<Seq<u8>>, full: bool) -> Result<
    (Location, int),
    ParseError,
> {
    match expect_spec(t, id, p, TokenKind::Ident) {
        Err(x) => Err(x),
        Ok((nl, p1)) => match expect_spec(t, id, p1, TokenKind::Newline) {
            Err(x) => Err(x),
            Ok((_, p2)) => match bindings_spec(t, id, p2) {
                Err(x) => Err(x),
                Ok((has_cmd, p3)) => if !has_cmd {
                    Err(ParseError { kind: ErrorKind::MissingCommand, loc: nl })
                } else if names.contains(t.subrange(nl.start as int, nl.stop as int)) {
                    Err(ParseError { kind: ErrorKind::DuplicateRule, loc: nl })
                } else if full {
                    Err(ParseError { kind: ErrorKind::TooManyItems, loc: nl })
                } else {
                    Ok((nl, p3))
                },
            },
        },
    }
}

/// The names bound by `vars`.
pub open spec fn var_names(vars: Seq<Binding>) -> Set<Seq<u8>> {
    Set::new(|n: Seq<u8>| exists|i: int| 0 <= i < vars.len() && #[trigger] vars[i].name.elem@ == n)
}

/// A top-level binding, given the names already bound: the name's location and where
/// the lexer then stands.
#[verifier::opaque]
pub open spec fn var_spec(t: Seq<u8>, id: SourceId, p: int, names: Set<Seq<u8>>) -> Result<
    (Location, int),
    ParseError,
> {
    match let_spec(t, id, p) {
        Err(x) => Err(x),
        Ok((kl, q)) => if names.contains(t.subrange(kl.start as int, kl.stop as int)) {
            Err(ParseError { kind: ErrorKind::DuplicateVariable, loc: kl })
        } else {
            Ok((kl, q))
        },
    }
}

/// `default <path>`, given whether a default was set before: the path's location and
/// where the lexer then stands.
#[verifier::opaque]
pub open spec fn default_spec(t: Seq<u8>, id: SourceId, p: int, set_before: bool) -> Result<
    (Location, int),
    ParseError,
> {
    match eval_string(t, p, true) {
        Err((k, pos)) => Err(error_at(k, pos, id)),
        Ok((_, stop, end)) => {
            let loc = Location { start: p as usize, stop: stop as usize, source_id: id };
            if set_before {
                Err(ParseError { kind: ErrorKind::DuplicateDefault, loc })
            } else {
                Ok((loc, skip_ws(t, end)))
            }
        },
    }
}

/// The places of `ls` lie in `[lo, hi)`, each non-empty, in order and apart.
pub open spec fn in_order(ls: Seq<L<Vec<u8>>>, lo: int, hi: int) -> bool {
    &&& forall|j: int|
        0 <= j < ls.len() ==> lo <= (#[trigger] ls[j]).loc.start < ls[j].loc.stop <= hi
    &&& forall|j: int| 0 <= j < ls.len() - 1 ==> (#[trigger] ls[j]).loc.stop <= ls[j + 1].loc.start
}

/// A path as read: its decoded text and where it was written.
pub type PathItem = (Seq<u8>, Location);

pub open spec fn paths_view(s: Seq<L<Vec<u8>>>) -> Seq<PathItem> {
    s.map_values(|l: L<Vec<u8>>| (l.elem@, l.loc))
}

pub open spec fn with_paths(items: Seq<PathItem>, r: Result<(Seq<PathItem>, int), ParseError>) -> Result<
    (Seq<PathItem>, int),
    ParseError,
> {
    match r {
        Ok((rest, q)) => Ok((items + rest, q)),
        Err(x) => Err(x),
    }
}

/// The paths from `p` up to the first empty one, and where the lexer then stands.
pub open spec fn path_list_spec(t: Seq<u8>, id: SourceId, p: int) -> Result<
    (Seq<PathItem>, int),
    ParseError,
>
    decreases t.len() - p,
{
    match eval_string(t, p, true) {
        Err((k, pos)) => Err(error_at(k, pos, id)),
        Ok((v, stop, end)) => {
            let q = skip_ws(t, end);
            if v.len() == 0 {
                Ok((Seq::empty(), q))
            } else if p < q <= t.len() {
                with_paths(
                    seq![(v, Location { start: p as usize, stop: stop as usize, source_id: id })],
                    path_list_spec(t, id, q),
                )
            } else {
                Err(error_at(ErrorKind::UnexpectedEof, p, id))
            }
        },
    }
}

/// A path list that is present only after a token of kind `kind`.
pub open spec fn tagged_list_spec(t: Seq<u8>, id: SourceId, p: int, kind: TokenKind) -> Result<
    (Seq<PathItem>, int),
    ParseError,
> {
    match next_token(t, p) {
        Err(pos) => Err(error_at(ErrorKind::UnexpectedChar, pos, id)),
        Ok((k, s, e)) => if k == kind {
            path_list_spec(t, id, token_after(t, k, e))
        } else {
            Ok((Seq::empty(), p))
        },
    }
}

/// The line of a `build` statement, given the rule names: outputs, where the rule is
/// named, inputs (explicit, implicit, order-only), and where the lexer then stands.
pub open spec fn build_line_spec(t: Seq<u8>, id: SourceId, p: int, names: Set<Seq<u8>>) -> Result<
    (Seq<PathItem>, Location, Seq<PathItem>, int),
    ParseError,
> {
    match path_list_spec(t, id, p) {
        Err(x) => Err(x),
        Ok((outs, p1)) => match tagged_list_spec(t, id, p1, TokenKind::Pipe) {
            Err(x) => Err(x),
            Ok((_, p2)) => match expect_spec(t, id, p2, TokenKind::Colon) {
                Err(x) => Err(x),
                Ok((_, p3)) => match expect_spec(t, id, p3, TokenKind::Ident) {
                    Err(x) => Err(x),
                    Ok((rl, p4)) => if !names.contains(t.subrange(rl.start as int, rl.stop as int)) {
                        Err(ParseError { kind: ErrorKind::UnknownRule, loc: rl })
                    } else {
                        match path_list_spec(t, id, p4) {
                            Err(x) => Err(x),
                            Ok((ins1, p5)) => match tagged_list_spec(t, id, p5, TokenKind::Pipe) {
                                Err(x) => Err(x),
                                Ok((ins2, p6)) => match tagged_list_spec(
                                    t,
                                    id,
                                    p6,
                                    TokenKind::Pipe2,
                                ) {
                                    Err(x) => Err(x),
                                    Ok((ins3, p7)) => Ok((outs, rl, ins1 + ins2 + ins3, p7)),
                                },
                            },
                        }
                    },
                },
            },
        },
    }
}

/// A `build` statement and its bindings, given the rule names and whether the edge
/// table is full.
#[verifier::opaque]
pub open spec fn build_spec(t: Seq<u8>, id: SourceId, p: int, names: Set<Seq<u8>>, full: bool) -> Result<
    (Seq<PathItem>, Location, Seq<PathItem>, int),
    ParseError,
> {
    match build_line_spec(t, id, p, names) {
        Err(x) => Err(x),
        Ok((outs, rl, ins, q)) => match expect_spec(t, id, q, TokenKind::Newline) {
            Err(x) => Err(x),
            Ok((_, q1)) => match bindings_spec(t, id, q1) {
                Err(x) => Err(x),
                Ok((_, q2)) => if full {
                    Err(ParseError { kind: ErrorKind::TooManyItems, loc: rl })
                } else {
                    Ok((outs, rl, ins, q2))
                },
            },
        },
    }
}

proof fn lemma_paths_assoc(a: Seq<PathItem>, b: Seq<PathItem>, r: Result<(Seq<PathItem>, int), ParseError>)
    ensures
        with_paths(a, with_paths(b, r)) == with_paths(a + b, r),
{
    match r {
        Ok((v, q)) => {
            assert((a + b) + v =~= a + (b + v));
        },
        Err(_) => {},
    }
}

/// What success of the next item depends on: rule names, bound variable names,
/// whether a default is set, and the numbers of rules and edges.
/// Besides what success depends on, the model's contents as values: each rule's name
/// with the place of its definition, the edges (rule reference, outputs, inputs), the
/// path index, the bindings (name, its place, value, its place) and the default.
pub type ParseState = (
    Set<Seq<u8>>,
    Set<Seq<u8>>,
    bool,
    nat,
    nat,
    Set<(Seq<u8>, Location)>,
    Set<EdgeView>,
    Seq<NodeView>,
    Seq<VarView>,
    Option<PathItem>,
);

/// A build edge as a value: where its rule is named, its outputs and its inputs.
pub type EdgeView = (Location, Seq<PathItem>, Seq<PathItem>);

/// A binding as a value: its name and place, its value and place.
pub type VarView = (Seq<u8>, Location, Seq<u8>, Location);

pub open spec fn rule_entries(m: Map<u64, crate::data::Rule>) -> Set<(Seq<u8>, Location)> {
    Set::new(
        |x: (Seq<u8>, Location)|
            exists|k: u64| m.contains_key(k) && #[trigger] m[k].name.elem@ == x.0 && m[k].name.loc == x.1,
    )
}

pub open spec fn edge_view(e: Edge) -> EdgeView {
    (e.rule_loc, paths_view(e.outputs@), paths_view(e.inputs@))
}

pub open spec fn edges_view(m: Map<u64, Edge>) -> Set<EdgeView> {
    Set::new(|x: EdgeView| exists|k: u64| m.contains_key(k) && #[trigger] edge_view(m[k]) == x)
}

pub open spec fn vars_view(vs: Seq<Binding>) -> Seq<VarView> {
    vs.map_values(|b: Binding| (b.name.elem@, b.name.loc, b.value.elem@, b.value.loc))
}

pub open spec fn default_view(d: Option<L<Vec<u8>>>) -> Option<PathItem> {
    match d {
        Some(l) => Some((l.elem@, l.loc)),
        None => None,
    }
}

pub open spec fn state_of(d: &Data) -> ParseState {
    (
        rule_names(d.rule_map()),
        var_names(d.var_seq()),
        d.default_target_spec() is Some,
        d.rule_map().len(),
        d.edge_map().len(),
        rule_entries(d.rule_map()),
        edges_view(d.edge_map()),
        nodes_view(d.node_seq()),
        vars_view(d.var_seq()),
        default_view(d.default_target_spec()),
    )
}

pub open spec fn after_rule(st: ParseState, name: Seq<u8>, loc: Location) -> ParseState {
    (st.0.insert(name), st.1, st.2, st.3 + 1, st.4, st.5.insert((name, loc)), st.6, st.7, st.8, st.9)
}

pub open spec fn after_build(st: ParseState, e: EdgeView) -> ParseState {
    (
        st.0,
        st.1,
        st.2,
        st.3,
        st.4 + 1,
        st.5,
        st.6.insert(e),
        record_all(record_all(st.7, e.1), e.2),
        st.8,
        st.9,
    )
}

pub open spec fn after_var(st: ParseState, v: VarView) -> ParseState {
    (st.0, st.1.insert(v.0), st.2, st.3, st.4, st.5, st.6, st.7, st.8.push(v), st.9)
}

pub open spec fn after_default(st: ParseState, d: PathItem) -> ParseState {
    (st.0, st.1, true, st.3, st.4, st.5, st.6, st.7, st.8, Some(d))
}

/// The items of a file from `p`, until its end or a statement that names another file:
/// that file's path as read, where the lexer then stands, and the state after them.
pub open spec fn items_spec(t: Seq<u8>, id: SourceId, p: int, st: ParseState) -> Result<
    (Option<PathItem>, int, ParseState),
    ParseError,
>
    decreases t.len() - p,
{
    match next_token(t, p) {
        Err(pos) => Err(error_at(ErrorKind::UnexpectedChar, pos, id)),
        Ok((k, s, e)) => {
            let q = token_after(t, k, e);
            let stuck = ParseError { kind: ErrorKind::UnexpectedToken, loc: token_of(k, s, e, id).loc };
            if k == TokenKind::Eof {
                Ok((None, q, st))
            } else if k == TokenKind::Newline {
                if p < q <= t.len() {
                    items_spec(t, id, q, st)
                } else {
                    Err(stuck)
                }
            } else if k == TokenKind::Rule {
                match rule_spec(t, id, q, st.0, st.3 + 2 >= u32::MAX) {
                    Err(x) => Err(x),
                    Ok((nl, q2)) => if p < q2 <= t.len() {
                        items_spec(
                            t,
                            id,
                            q2,
                            after_rule(st, t.subrange(nl.start as int, nl.stop as int), nl),
                        )
                    } else {
                        Err(stuck)
                    },
                }
            } else if k == TokenKind::Build {
                match build_spec(t, id, q, st.0, st.4 + 2 >= u32::MAX) {
                    Err(x) => Err(x),
                    Ok((outs, rl, ins, q2)) => if p < q2 <= t.len() {
                        items_spec(t, id, q2, after_build(st, (rl, outs, ins)))
                    } else {
                        Err(stuck)
                    },
                }
            } else if k == TokenKind::Default {
                match default_spec(t, id, q, st.2) {
                    Err(x) => Err(x),
                    Ok((loc, q2)) => if p < q2 <= t.len() {
                        items_spec(t, id, q2, after_default(st, (default_value(t, q), loc)))
                    } else {
                        Err(stuck)
                    },
                }
            } else if k == TokenKind::Ident {
                match var_spec(t, id, p, st.1) {
                    Err(x) => Err(x),
                    Ok((kl, q2)) => if p < q2 <= t.len() {
                        items_spec(
                            t,
                            id,
                            q2,
                            after_var(
                                st,
                                (
                                    t.subrange(kl.start as int, kl.stop as int),
                                    kl,
                                    let_value(t, id, p).0,
                                    let_value(t, id, p).1,
                                ),
                            ),
                        )
                    } else {
                        Err(stuck)
                    },
                }
            } else if k == TokenKind::Include || k == TokenKind::Subninja {
                match eval_string(t, q, true) {
                    Err((kind, pos)) => Err(error_at(kind, pos, id)),
                    Ok((v, stop, end)) => Ok(
                        (
                            Some(
                                (v, Location { start: q as usize, stop: stop as usize, source_id: id }),
                            ),
                            skip_ws(t, end),
                            st,
                        ),
                    ),
                }
            } else {
                Err(stuck)
            }
        },
    }
}

proof fn lemma_rule_names_insert(m: Map<u64, crate::data::Rule>, k: u64, r: crate::data::Rule)
    requires
        !m.contains_key(k),
    ensures
        rule_names(m.insert(k, r)) == rule_names(m).insert(r.name.elem@),
{
    let m2 = m.insert(k, r);
    assert forall|n: Seq<u8>| rule_names(m2).contains(n) == rule_names(m).insert(r.name.elem@).contains(
        n,
    ) by {
        if rule_names(m2).contains(n) {
            let kk = choose|kk: u64| m2.contains_key(kk) && #[trigger] m2[kk].name.elem@ == n;
            if kk != k {
                assert(m.contains_key(kk) && m[kk].name.elem@ == n);
            }
        }
        if rule_names(m).contains(n) {
            let kk = choose|kk: u64| m.contains_key(kk) && #[trigger] m[kk].name.elem@ == n;
            assert(m2.contains_key(kk) && m2[kk].name.elem@ == n);
        }
        if n == r.name.elem@ {
            assert(m2.contains_key(k) && m2[k].name.elem@ == n);
        }
    }
    assert(rule_names(m2) =~= rule_names(m).insert(r.name.elem@));
}

proof fn lemma_rule_entries_insert(m: Map<u64, crate::data::Rule>, k: u64, r: crate::data::Rule)
    requires
        !m.contains_key(k),
    ensures
        rule_entries(m.insert(k, r)) == rule_entries(m).insert((r.name.elem@, r.name.loc)),
{
    let m2 = m.insert(k, r);
    let x0 = (r.name.elem@, r.name.loc);
    assert forall|x: (Seq<u8>, Location)| rule_entries(m2).contains(x) == rule_entries(m).insert(
        x0,
    ).contains(x) by {
        if rule_entries(m2).contains(x) {
            let kk = choose|kk: u64|
                m2.contains_key(kk) && #[trigger] m2[kk].name.elem@ == x.0 && m2[kk].name.loc == x.1;
            if kk != k {
                assert(m.contains_key(kk) && m[kk].name.elem@ == x.0 && m[kk].name.loc == x.1);
            }
        }
        if rule_entries(m).contains(x) {
            let kk = choose|kk: u64|
                m.contains_key(kk) && #[trigger] m[kk].name.elem@ == x.0 && m[kk].name.loc == x.1;
            assert(m2.contains_key(kk) && m2[kk].name.elem@ == x.0 && m2[kk].name.loc == x.1);
        }
        if x == x0 {
            assert(m2.contains_key(k) && m2[k].name.elem@ == x.0 && m2[k].name.loc == x.1);
        }
    }
    assert(rule_entries(m2) =~= rule_entries(m).insert(x0));
}

proof fn lemma_edges_view_insert(m: Map<u64, Edge>, k: u64, e: Edge)
    requires
        !m.contains_key(k),
    ensures
        edges_view(m.insert(k, e)) == edges_view(m).insert(edge_view(e)),
{
    let m2 = m.insert(k, e);
    assert forall|x: EdgeView| edges_view(m2).contains(x) == edges_view(m).insert(edge_view(e)).contains(
        x,
    ) by {
        if edges_view(m2).contains(x) {
            let kk = choose|kk: u64| m2.contains_key(kk) && #[trigger] edge_view(m2[kk]) == x;
            if kk != k {
                assert(m.contains_key(kk) && edge_view(m[kk]) == x);
            }
        }
        if edges_view(m).contains(x) {
            let kk = choose|kk: u64| m.contains_key(kk) && #[trigger] edge_view(m[kk]) == x;
            assert(m2.contains_key(kk) && edge_view(m2[kk]) == x);
        }
        if x == edge_view(e) {
            assert(m2.contains_key(k) && edge_view(m2[k]) == x);
        }
    }
    assert(edges_view(m2) =~= edges_view(m).insert(edge_view(e)));
}

proof fn lemma_var_names_push(vs: Seq<Binding>, b: Binding)
    ensures
        var_names(vs.push(b)) == var_names(vs).insert(b.name.elem@),
{
    let v2 = vs.push(b);
    assert forall|n: Seq<u8>| var_names(v2).contains(n) == var_names(vs).insert(b.name.elem@).contains(
        n,
    ) by {
        if var_names(v2).contains(n) {
            let i = choose|i: int| 0 <= i < v2.len() && #[trigger] v2[i].name.elem@ == n;
            if i < vs.len() {
                assert(vs[i] == v2[i]);
            }
        }
        if var_names(vs).contains(n) {
            let i = choose|i: int| 0 <= i < vs.len() && #[trigger] vs[i].name.elem@ == n;
            assert(v2[i] == vs[i]);
        }
        if n == b.name.elem@ {
            assert(v2[vs.len() as int] == b);
        }
    }
    assert(var_names(v2) =~= var_names(vs).insert(b.name.elem@));
}

struct Parser<'x> {
    lexer: Lexer<'x>,
    source: &'x Source,
}

impl<'x> Parser<'x> {
    /// The lexer scans the source, which is file `source.id` of `srcs`.
    spec fn wf(&self, srcs: Seq<Seq<u8>>) -> bool {
        &&& self.lexer.wf()
        &&& self.lexer.text() == self.source.text@
        &&& self.lexer.source() == self.source.id
        &&& (self.source.id.0 as int) < srcs.len()
        &&& srcs[self.source.id.0 as int] == self.source.text@
    }

    spec fn pos(&self) -> int {
        self.lexer.pos()
    }

    spec fn step(&self, next: &Parser, srcs: Seq<Seq<u8>>) -> bool {
        &&& next.wf(srcs)
        &&& next.source == self.source
        &&& self.pos() <= next.pos()
    }
}

/// Consumes the next token, which must be of kind `kind`.
fn expect(parser: &mut Parser, kind: TokenKind, srcs: Ghost<Seq<Seq<u8>>>) -> (r: Result<
    Token,
    ParseError,
>)
    requires
        old(parser).wf(srcs@),
    ensures
        old(parser).step(final(parser), srcs@),
        r.is_err() ==> is_syntax_error(r.unwrap_err().kind),
        match expect_spec(old(parser).lexer.text(), old(parser).source.id, old(parser).pos(), kind) {
            Ok((loc, q)) => r is Ok && r.unwrap().loc == loc && r.unwrap().kind == kind
                && final(parser).pos() == q,
            Err(e) => r == Err::<Token, ParseError>(e),
        },
        match next_token(old(parser).lexer.text(), old(parser).pos()) {
            Ok((k, s, e)) => if k == kind {
                &&& r == Ok::<Token, ParseError>(token_of(k, s, e, old(parser).source.id))
                &&& final(parser).pos() == token_after(old(parser).lexer.text(), k, e)
                &&& s < e <= final(parser).pos()
                &&& (k != TokenKind::Eof ==> old(parser).pos() <= s && e < old(parser).lexer.text().len())
            } else {
                r == Err::<Token, ParseError>(
                    ParseError {
                        kind: ErrorKind::UnexpectedToken,
                        loc: token_of(k, s, e, old(parser).source.id).loc,
                    },
                )
            },
            Err(pos) => r.is_err() && r.unwrap_err().kind == ErrorKind::UnexpectedChar,
        },
{
    let next = parser.lexer.next()?;
    if next.kind != kind {
        return Err(ParseError { kind: ErrorKind::UnexpectedToken, loc: next.loc });
    }
    Ok(next)
}

/// Copies the text at a token's location, with that location.
fn located(parser: &Parser, loc: Location, srcs: Ghost<Seq<Seq<u8>>>) -> (r: L<Vec<u8>>)
    requires
        parser.wf(srcs@),
        loc.source_id == parser.source.id,
        loc.start <= loc.stop < parser.source.text@.len(),
    ensures
        r.loc == loc,
        loc_valid(srcs@, loc),
        loc_text(srcs@, loc) == r.elem@,
{
    let text = parser.source.str_loc(loc);
    let mut elem: Vec<u8> = Vec::new();
    push_range(&mut elem, text, 0, text.len());
    assert(elem@ =~= text@);
    L { elem, loc }
}

/// Reads `key = value` up to the end of the line.
fn parse_let(parser: &mut Parser, srcs: Ghost<Seq<Seq<u8>>>) -> (r: Result<
    (L<Vec<u8>>, L<Vec<u8>>),
    ParseError,
>)
    requires
        old(parser).wf(srcs@),
    ensures
        old(parser).step(final(parser), srcs@),
        r.is_err() ==> is_syntax_error(r.unwrap_err().kind),
        r.is_ok() ==> old(parser).pos() < final(parser).pos(),
        match let_spec(old(parser).lexer.text(), old(parser).source.id, old(parser).pos()) {
            Ok((kl, q)) => r is Ok && r.unwrap().0.loc == kl && final(parser).pos() == q && (
            r.unwrap().1.elem@, r.unwrap().1.loc) == let_value(old(parser).lexer.text(), old(parser).source.id, old(parser).pos()),
            Err(e) => r == Err::<(L<Vec<u8>>, L<Vec<u8>>), ParseError>(e),
        },
        match r {
            Ok((key, value)) => {
                &&& first_token_is(
                    old(parser).lexer.text(),
                    old(parser).pos(),
                    TokenKind::Ident,
                    key.loc,
                    old(parser).source.id,
                ) || first_token_is(
                    old(parser).lexer.text(),
                    old(parser).pos(),
                    TokenKind::Pool,
                    key.loc,
                    old(parser).source.id,
                )
                &&& loc_valid(srcs@, key.loc)
                &&& loc_text(srcs@, key.loc) == key.elem@
            },
            Err(_) => true,
        },
{
    let key_loc = parser.lexer.read_ident()?;
    let key = located(parser, key_loc, srcs);
    expect(parser, TokenKind::Equals, srcs)?;
    let value = parser.lexer.read_var_value()?;
    Ok((key, value))
}

/// Whether a binding's key is `command`.
fn is_command(key: &[u8]) -> (r: bool)
    ensures
        r == (key@ == seq![99u8, 111, 109, 109, 97, 110, 100]),
{
    let command: [u8; 7] = [99, 111, 109, 109, 97, 110, 100];
    assert(command@ =~= seq![99u8, 111, 109, 109, 97, 110, 100]);
    crate::lexer::same_bytes(key, command.as_slice())
}

/// Skips the indented `key = value` lines that follow a `rule` or `build` line, and
/// tells whether one of them binds `command`.
fn parse_bindings(parser: &mut Parser, srcs: Ghost<Seq<Seq<u8>>>) -> (r: Result<bool, ParseError>)
    requires
        old(parser).wf(srcs@),
    ensures
        old(parser).step(final(parser), srcs@),
        r.is_err() ==> is_syntax_error(r.unwrap_err().kind),
        match bindings_spec(old(parser).lexer.text(), old(parser).source.id, old(parser).pos()) {
            Ok((h, q)) => r == Ok::<bool, ParseError>(h) && final(parser).pos() == q,
            Err(e) => r == Err::<bool, ParseError>(e),
        },
{
    let mut has_command = false;
    loop
        invariant
            old(parser).step(parser, srcs@),
            with_command(
                has_command,
                bindings_spec(parser.lexer.text(), parser.source.id, parser.pos()),
            ) == bindings_spec(old(parser).lexer.text(), old(parser).source.id, old(parser).pos()),
        decreases parser.lexer.text().len() - parser.pos(),
    {
        let ghost p = parser.pos();
        let tok = parser.lexer.peek()?;
        if tok.kind != TokenKind::Indent {
            return Ok(has_command);
        }
        parser.lexer.next()?;
        let (key, _value) = parse_let(parser, srcs)?;
        if is_command(key.elem.as_slice()) {
            has_command = true;
        }
        assert(p < parser.pos());
        assert(key.elem@ == parser.lexer.text().subrange(key.loc.start as int, key.loc.stop as int));
    }
}

/// `rule <name>` followed by its bindings, one of which must be `command`.
fn parse_rule(parser: &mut Parser, data: &mut Data, srcs: Ghost<Seq<Seq<u8>>>) -> (r: Result<
    RuleKey,
    ParseError,
>)
    requires
        old(data).places_before(old(parser).source.id, old(parser).pos()),
        old(parser).wf(srcs@),
        old(data).wf(srcs@),
    ensures
        old(data).places_grow(final(data), old(parser).source.id, final(parser).pos()),
        old(parser).step(final(parser), srcs@),
        final(data).wf(srcs@),
        final(data).node_seq() == old(data).node_seq(),
        final(data).var_seq() == old(data).var_seq(),
        final(data).default_target_spec() == old(data).default_target_spec(),
        r is Ok ==> state_of(final(data)) == after_rule(
            state_of(old(data)),
            final(data).rule_map()[r.unwrap().0].name.elem@,
            final(data).rule_map()[r.unwrap().0].name.loc,
        ),
        final(data).phony_key() == old(data).phony_key(),
        final(data).edge_map() == old(data).edge_map(),
        match rule_spec(
            old(parser).lexer.text(),
            old(parser).source.id,
            old(parser).pos(),
            rule_names(old(data).rule_map()),
            old(data).rule_map().len() + 2 >= u32::MAX,
        ) {
            Ok((nl, q)) => r is Ok && final(parser).pos() == q && final(data).rule_map()[r.unwrap().0].name.loc
                == nl,
            Err(e) => r == Err::<RuleKey, ParseError>(e),
        },
        match r {
            Ok(k) => {
                &&& !old(data).rule_map().contains_key(k.0)
                &&& final(data).rule_map() == old(data).rule_map().insert(
                    k.0,
                    final(data).rule_map()[k.0],
                )
                &&& first_token_is(old(parser).lexer.text(), old(parser).pos(), TokenKind::Ident,
                    final(data).rule_map()[k.0].name.loc, old(parser).source.id)
                &&& final(data).rule_map()[k.0].name.elem@ == loc_text(
                    srcs@,
                    final(data).rule_map()[k.0].name.loc,
                )
            },
            Err(e) => rule_error_explained(final(data), srcs@, e) && final(data).rule_map() == old(data).rule_map(),
        },
{
    reveal(rule_spec);
    let name_token = expect(parser, TokenKind::Ident, srcs)?;
    let name = located(parser, name_token.loc, srcs);
    expect(parser, TokenKind::Newline, srcs)?;
    let has_command = parse_bindings(parser, srcs)?;
    if !has_command {
        return Err(ParseError { kind: ErrorKind::MissingCommand, loc: name.loc });
    }
    let ghost names = rule_names(data.rule_map());
    let ghost nm = name.elem@;
    let ghost m0 = data.rule_map();
    proof {
        if exists|kk: u64| #[trigger] data.rule_map().contains_key(kk) && data.rule_map()[kk].name.elem@ == nm {
            assert(names.contains(nm));
        } else {
            assert(!names.contains(nm));
        }
    }
    proof {
        data.lemma_before_mono(parser.source.id, old(parser).pos(), name.loc.start as int);
    }
    let r = data.add_rule(name, srcs);
    proof {
        if let Ok(k) = r {
            lemma_rule_names_insert(m0, k.0, data.rule_map()[k.0]);
            lemma_rule_entries_insert(m0, k.0, data.rule_map()[k.0]);
            assert(data.rule_map().dom() =~= m0.dom().insert(k.0));
        }
    }
    r
}

/// Reads paths until the list ends, appending them to `list` unless `keep` is false.
fn read_path_list(
    parser: &mut Parser,
    list: &mut Vec<L<Vec<u8>>>,
    keep: bool,
    lo: Ghost<int>,
    srcs: Ghost<Seq<Seq<u8>>>,
) -> (r: Result<(), ParseError>)
    requires
        old(parser).wf(srcs@),
    ensures
        lo@ <= old(parser).pos() && in_order(old(list)@, lo@, old(parser).pos()) ==> in_order(
            final(list)@,
            lo@,
            final(parser).pos(),
        ),
        old(parser).step(final(parser), srcs@),
        r.is_err() ==> is_syntax_error(r.unwrap_err().kind),
        match path_list_spec(old(parser).lexer.text(), old(parser).source.id, old(parser).pos()) {
            Ok((items, q)) => r is Ok && final(parser).pos() == q && paths_view(final(list)@) == paths_view(
                old(list)@,
            ) + (if keep {
                items
            } else {
                Seq::empty()
            }),
            Err(e) => r == Err::<(), ParseError>(e),
        },
        final(list)@.len() >= old(list)@.len(),
        forall|j: int| 0 <= j < old(list)@.len() ==> #[trigger] final(list)@[j] == old(list)@[j],
        forall|j: int|
            old(list)@.len() <= j < final(list)@.len() ==> (#[trigger] final(list)@[j]).loc.source_id
                == old(parser).source.id && old(parser).pos() <= final(list)@[j].loc.start
                < final(list)@[j].loc.stop <= final(parser).pos(),
        forall|j: int|
            old(list)@.len() <= j < final(list)@.len() ==> path_at(
                srcs@,
                (#[trigger] final(list)@[j]).loc,
                final(list)@[j].elem@,
            ),
{
    let ghost mut acc: Seq<PathItem> = Seq::empty();
    let ghost t = parser.lexer.text();
    let ghost id = parser.source.id;
    let ghost p0 = parser.pos();
    assert(paths_view(list@) =~= paths_view(old(list)@) + Seq::<PathItem>::empty());
    assert(acc + Seq::<PathItem>::empty() =~= acc);
    loop
        invariant
            old(parser).step(parser, srcs@),
            t == parser.lexer.text(),
            t == old(parser).lexer.text(),
            id == parser.source.id,
            id == old(parser).source.id,
            p0 == old(parser).pos(),
            with_paths(acc, path_list_spec(t, id, parser.pos())) == path_list_spec(t, id, p0),
            paths_view(list@) == paths_view(old(list)@) + (if keep {
                acc
            } else {
                Seq::empty()
            }),
            list@.len() >= old(list)@.len(),
            forall|j: int| 0 <= j < old(list)@.len() ==> #[trigger] list@[j] == old(list)@[j],
            forall|j: int|
                old(list)@.len() <= j < list@.len() ==> (#[trigger] list@[j]).loc.source_id
                    == old(parser).source.id && old(parser).pos() <= list@[j].loc.start
                    < list@[j].loc.stop <= parser.pos(),
            forall|j: int|
                old(list)@.len() <= j < list@.len() ==> path_at(
                    srcs@,
                    (#[trigger] list@[j]).loc,
                    list@[j].elem@,
                ),
            lo@ <= old(parser).pos() && in_order(old(list)@, lo@, old(parser).pos()) ==> in_order(
                list@,
                lo@,
                parser.pos(),
            ),
        decreases parser.lexer.text().len() - parser.pos(),
    {
        let ghost p = parser.pos();
        let tmp = match parser.lexer.read_path() {
            Ok(tmp) => tmp,
            Err(e) => {
                assert(path_list_spec(t, id, p) == Err::<(Seq<PathItem>, int), ParseError>(e));
                return Err(e);
            },
        };
        if tmp.elem.len() == 0 {
            assert(acc + Seq::<PathItem>::empty() =~= acc);
            assert(path_list_spec(t, id, p) == Ok::<(Seq<PathItem>, int), ParseError>((Seq::<PathItem>::empty(), parser.pos())));
            return Ok(());
        }
        assert(p < parser.pos());
        assert(path_at(srcs@, tmp.loc, tmp.elem@));
        let ghost item = (tmp.elem@, tmp.loc);
        proof {
            lemma_paths_assoc(acc, seq![item], path_list_spec(t, id, parser.pos()));
            assert(acc + seq![item] =~= acc.push(item));
        }
        let ghost before = list@;
        let ghost pos_read = parser.pos();
        if keep {
            list.push(tmp);
            proof {
                if lo@ <= old(parser).pos() && in_order(old(list)@, lo@, old(parser).pos()) {
                    assert(in_order(before, lo@, p));
                    assert forall|j: int| 0 <= j < list@.len() implies lo@ <= (
                    #[trigger] list@[j]).loc.start < list@[j].loc.stop <= pos_read by {
                        if j < before.len() {
                            assert(list@[j] == before[j]);
                        }
                    }
                    assert forall|j: int| 0 <= j < list@.len() - 1 implies (
                    #[trigger] list@[j]).loc.stop <= list@[j + 1].loc.start by {
                        assert(list@[j] == before[j]);
                        if j + 1 < before.len() {
                            assert(list@[j + 1] == before[j + 1]);
                        }
                    }
                }
            }
            assert(paths_view(list@) =~= paths_view(before).push(item));
            assert(paths_view(list@) =~= paths_view(old(list)@) + acc.push(item));
        }
        proof {
            acc = acc.push(item);
        }
    }
}

/// The line of a `build` statement: its outputs, the rule it names and where, and
/// its inputs. Implicit outputs are read and dropped.
#[verifier::rlimit(80)]
fn parse_build_line(parser: &mut Parser, data: &Data, srcs: Ghost<Seq<Seq<u8>>>) -> (r: Result<
    (Vec<L<Vec<u8>>>, RuleKey, Location, Vec<L<Vec<u8>>>),
    ParseError,
>)
    requires
        old(parser).wf(srcs@),
        data.wf(srcs@),
    ensures
        r is Ok ==> in_order(r.unwrap().0@, old(parser).pos(), r.unwrap().2.start as int) && in_order(
            r.unwrap().3@,
            r.unwrap().2.stop as int,
            final(parser).pos(),
        ) && r.unwrap().2.start < r.unwrap().2.stop,
        old(parser).step(final(parser), srcs@),
        match build_line_spec(
            old(parser).lexer.text(),
            old(parser).source.id,
            old(parser).pos(),
            rule_names(data.rule_map()),
        ) {
            Ok((o, rl, i, q)) => r is Ok && paths_view(r.unwrap().0@) == o && r.unwrap().2 == rl
                && paths_view(r.unwrap().3@) == i && final(parser).pos() == q,
            Err(e) => r == Err::<(Vec<L<Vec<u8>>>, RuleKey, Location, Vec<L<Vec<u8>>>), ParseError>(e),
        },
        match r {
            Ok((outs, rule, rule_loc, ins)) => {
                &&& data.rule_map().contains_key(rule.0)
                &&& loc_valid(srcs@, rule_loc)
                &&& loc_text(srcs@, rule_loc) == data.rule_map()[rule.0].name.elem@
                &&& edge_paths_placed(
                    outs@,
                    ins@,
                    rule_loc,
                    old(parser).source.id,
                    old(parser).pos(),
                    final(parser).pos(),
                )
                &&& forall|j: int|
                    0 <= j < outs@.len() ==> path_at(srcs@, (#[trigger] outs@[j]).loc, outs@[j].elem@)
                &&& forall|j: int|
                    0 <= j < ins@.len() ==> path_at(srcs@, (#[trigger] ins@[j]).loc, ins@[j].elem@)
            },
            Err(e) => rule_error_explained(data, srcs@, e),
        },
{
    let ghost t = parser.lexer.text();
    let ghost id = parser.source.id;
    let ghost names = rule_names(data.rule_map());
    let ghost p0 = parser.pos();
    let mut outs: Vec<L<Vec<u8>>> = Vec::new();
    let mut ins: Vec<L<Vec<u8>>> = Vec::new();
    let mut ignored: Vec<L<Vec<u8>>> = Vec::new();
    read_path_list(parser, &mut outs, true, Ghost(p0), srcs)?;
    let ghost p1 = parser.pos();
    assert(paths_view(outs@) =~= path_list_spec(t, id, p0)->Ok_0.0);
    if parser.lexer.maybe_peek(TokenKind::Pipe)? {
        read_path_list(parser, &mut ignored, false, Ghost(p1), srcs)?;
    }
    let ghost p2 = parser.pos();
    assert(tagged_list_spec(t, id, p1, TokenKind::Pipe) is Ok);
    assert(tagged_list_spec(t, id, p1, TokenKind::Pipe)->Ok_0.1 == p2);
    expect(parser, TokenKind::Colon, srcs)?;
    let ghost p3 = parser.pos();
    let rule_name_token = expect(parser, TokenKind::Ident, srcs)?;
    let ghost p4 = parser.pos();
    let rule_name = located(parser, rule_name_token.loc, srcs);
    let rule = match data.rule_by_name(rule_name.elem.as_slice()) {
        Some(k) => {
            assert(names.contains(rule_name.elem@));
            k
        },
        None => {
            assert(!names.contains(rule_name.elem@));
            return Err(ParseError { kind: ErrorKind::UnknownRule, loc: rule_name_token.loc });
        },
    };
    assert(names.contains(t.subrange(rule_name_token.loc.start as int, rule_name_token.loc.stop as int)));
    assert(p0 <= p1 <= p2 <= rule_name_token.loc.start < rule_name_token.loc.stop <= p4);
    read_path_list(parser, &mut ins, true, Ghost(p4), srcs)?;
    let ghost p5 = parser.pos();
    let ghost ins1 = paths_view(ins@);
    assert(ins1 =~= path_list_spec(t, id, p4)->Ok_0.0);
    if parser.lexer.maybe_peek(TokenKind::Pipe)? {
        read_path_list(parser, &mut ins, true, Ghost(p4), srcs)?;
    } else {
        assert(paths_view(ins@) =~= ins1 + Seq::<PathItem>::empty());
    }
    let ghost p6 = parser.pos();
    let ghost ins12 = paths_view(ins@);
    assert(tagged_list_spec(t, id, p5, TokenKind::Pipe) is Ok);
    assert(ins12 == ins1 + tagged_list_spec(t, id, p5, TokenKind::Pipe)->Ok_0.0);
    if parser.lexer.maybe_peek(TokenKind::Pipe2)? {
        read_path_list(parser, &mut ins, true, Ghost(p4), srcs)?;
    } else {
        assert(paths_view(ins@) =~= ins12 + Seq::<PathItem>::empty());
    }
    assert(tagged_list_spec(t, id, p6, TokenKind::Pipe2) is Ok);
    assert(paths_view(ins@) == ins12 + tagged_list_spec(t, id, p6, TokenKind::Pipe2)->Ok_0.0);
    assert(edge_paths_placed(
        outs@,
        ins@,
        rule_name_token.loc,
        parser.source.id,
        p0,
        parser.pos(),
    ));
    Ok((outs, rule, rule_name_token.loc, ins))
}

/// Adds the places of an edge's paths to the path index.
#[verifier::rlimit(80)]
fn record_edge_paths(
    data: &mut Data,
    outs: &Vec<L<Vec<u8>>>,
    ins: &Vec<L<Vec<u8>>>,
    id: Ghost<SourceId>,
    lo: Ghost<int>,
    mid: Ghost<int>,
    hi: Ghost<int>,
    srcs: Ghost<Seq<Seq<u8>>>,
)
    requires
        old(data).places_before(id@, lo@),
        lo@ <= mid@ <= hi@,
        in_order(outs@, lo@, mid@),
        in_order(ins@, mid@, hi@),
        forall|j: int| 0 <= j < outs@.len() ==> (#[trigger] outs@[j]).loc.source_id == id@,
        forall|j: int| 0 <= j < ins@.len() ==> (#[trigger] ins@[j]).loc.source_id == id@,
        old(data).wf(srcs@),
        forall|j: int|
            0 <= j < outs@.len() ==> path_at(srcs@, (#[trigger] outs@[j]).loc, outs@[j].elem@),
        forall|j: int|
            0 <= j < ins@.len() ==> path_at(srcs@, (#[trigger] ins@[j]).loc, ins@[j].elem@),
    ensures
        old(data).places_grow(final(data), id@, hi@),
        final(data).wf(srcs@),
        final(data).rule_map() == old(data).rule_map(),
        final(data).edge_map() == old(data).edge_map(),
        final(data).phony_key() == old(data).phony_key(),
        final(data).var_seq() == old(data).var_seq(),
        final(data).default_target_spec() == old(data).default_target_spec(),
        forall|j: int|
            0 <= j < outs@.len() ==> edge_path_ok(srcs@, final(data).node_seq(), #[trigger] outs@[j]),
        forall|j: int|
            0 <= j < ins@.len() ==> edge_path_ok(srcs@, final(data).node_seq(), #[trigger] ins@[j]),
        nodes_view(final(data).node_seq()) == record_all(
            record_all(nodes_view(old(data).node_seq()), paths_view(outs@)),
            paths_view(ins@),
        ),
{
    let ghost nv0 = nodes_view(data.node_seq());
    assert(paths_view(outs@).subrange(0, 0) =~= Seq::<PathItem>::empty());
    let mut i: usize = 0;
    let ghost mut cur: int = lo@;
    proof {
        data.lemma_grow_refl(id@, lo@);
    }
    while i < outs.len()
        invariant
            old(data).places_before(id@, lo@),
            in_order(outs@, lo@, mid@),
            in_order(ins@, mid@, hi@),
            forall|j: int| 0 <= j < outs@.len() ==> (#[trigger] outs@[j]).loc.source_id == id@,
            forall|j: int| 0 <= j < ins@.len() ==> (#[trigger] ins@[j]).loc.source_id == id@,
            old(data).places_grow(data, id@, cur),
            lo@ <= mid@ <= hi@,
            lo@ <= cur <= mid@,
            i < outs@.len() ==> cur <= outs@[i as int].loc.start,
            data.wf(srcs@),
            data.rule_map() == old(data).rule_map(),
            data.edge_map() == old(data).edge_map(),
            data.phony_key() == old(data).phony_key(),
            data.var_seq() == old(data).var_seq(),
            data.default_target_spec() == old(data).default_target_spec(),
            0 <= i <= outs@.len(),
            nv0 == nodes_view(old(data).node_seq()),
            nodes_view(data.node_seq()) == record_all(nv0, paths_view(outs@).subrange(0, i as int)),
            forall|j: int|
                0 <= j < outs@.len() ==> path_at(srcs@, (#[trigger] outs@[j]).loc, outs@[j].elem@),
            forall|j: int|
                0 <= j < ins@.len() ==> path_at(srcs@, (#[trigger] ins@[j]).loc, ins@[j].elem@),
            forall|j: int|
                0 <= j < i ==> edge_path_ok(srcs@, data.node_seq(), #[trigger] outs@[j]),
        decreases outs@.len() - i,
    {
        let ghost nodes0 = data.node_seq();
        let ghost d0 = *data;
        proof {
            old(data).lemma_before_mono(id@, lo@, outs@[i as int].loc.start as int);
            assert(data.places_before(id@, outs@[i as int].loc.start as int));
        }
        data.record_node(&outs[i], srcs);
        proof {
            old(data).lemma_grow_trans(&d0, data, id@, cur, outs@[i as int].loc.stop as int);
            cur = outs@[i as int].loc.stop as int;
        }
        proof {
            let pv = paths_view(outs@);
            assert(pv.subrange(0, i + 1).drop_last() =~= pv.subrange(0, i as int));
            assert(pv.subrange(0, i + 1).last() == (outs@[i as int].elem@, outs@[i as int].loc));
            assert forall|j: int| 0 <= j < i + 1 implies edge_path_ok(
                srcs@,
                data.node_seq(),
                #[trigger] outs@[j],
            ) by {
                if j < i {
                    assert(indexed(nodes0, outs@[j].elem@, outs@[j].loc));
                }
            }
        }
        i = i + 1;
    }
    assert(paths_view(outs@).subrange(0, outs@.len() as int) =~= paths_view(outs@));
    assert(paths_view(ins@).subrange(0, 0) =~= Seq::<PathItem>::empty());
    let mut i: usize = 0;
    proof {
        old(data).lemma_grow_weaken(data, id@, cur, mid@);
        cur = mid@;
    }
    while i < ins.len()
        invariant
            old(data).places_before(id@, lo@),
            in_order(outs@, lo@, mid@),
            in_order(ins@, mid@, hi@),
            forall|j: int| 0 <= j < outs@.len() ==> (#[trigger] outs@[j]).loc.source_id == id@,
            forall|j: int| 0 <= j < ins@.len() ==> (#[trigger] ins@[j]).loc.source_id == id@,
            old(data).places_grow(data, id@, cur),
            lo@ <= mid@ <= hi@,
            mid@ <= cur <= hi@,
            i < ins@.len() ==> cur <= ins@[i as int].loc.start,
            data.wf(srcs@),
            data.rule_map() == old(data).rule_map(),
            data.edge_map() == old(data).edge_map(),
            data.phony_key() == old(data).phony_key(),
            data.var_seq() == old(data).var_seq(),
            data.default_target_spec() == old(data).default_target_spec(),
            0 <= i <= ins@.len(),
            nv0 == nodes_view(old(data).node_seq()),
            nodes_view(data.node_seq()) == record_all(
                record_all(nv0, paths_view(outs@)),
                paths_view(ins@).subrange(0, i as int),
            ),
            forall|j: int|
                0 <= j < ins@.len() ==> path_at(srcs@, (#[trigger] ins@[j]).loc, ins@[j].elem@),
            forall|j: int|
                0 <= j < outs@.len() ==> edge_path_ok(srcs@, data.node_seq(), #[trigger] outs@[j]),
            forall|j: int|
                0 <= j < i ==> edge_path_ok(srcs@, data.node_seq(), #[trigger] ins@[j]),
        decreases ins@.len() - i,
    {
        let ghost nodes0 = data.node_seq();
        let ghost d0 = *data;
        proof {
            old(data).lemma_before_mono(id@, lo@, ins@[i as int].loc.start as int);
            assert(data.places_before(id@, ins@[i as int].loc.start as int));
        }
        data.record_node(&ins[i], srcs);
        proof {
            old(data).lemma_grow_trans(&d0, data, id@, cur, ins@[i as int].loc.stop as int);
            cur = ins@[i as int].loc.stop as int;
        }
        proof {
            let pv = paths_view(ins@);
            assert(pv.subrange(0, i + 1).drop_last() =~= pv.subrange(0, i as int));
            assert(pv.subrange(0, i + 1).last() == (ins@[i as int].elem@, ins@[i as int].loc));
            assert forall|j: int| 0 <= j < i + 1 implies edge_path_ok(
                srcs@,
                data.node_seq(),
                #[trigger] ins@[j],
            ) by {
                if j < i {
                    assert(indexed(nodes0, ins@[j].elem@, ins@[j].loc));
                }
            }
            assert forall|j: int| 0 <= j < outs@.len() implies edge_path_ok(
                srcs@,
                data.node_seq(),
                #[trigger] outs@[j],
            ) by {
                assert(indexed(nodes0, outs@[j].elem@, outs@[j].loc));
            }
        }
        i = i + 1;
    }    assert(paths_view(ins@).subrange(0, ins@.len() as int) =~= paths_view(ins@));
    proof {
        old(data).lemma_grow_weaken(data, id@, cur, hi@);
    }
}

/// `build <outputs> [| <implicit outputs>] : <rule> <inputs> [| <implicit inputs>]
/// [|| <order-only inputs>]` and its bindings. Outputs and inputs go to the path index;
/// implicit outputs and bindings are read and left out of the model.
fn parse_build(parser: &mut Parser, data: &mut Data, srcs: Ghost<Seq<Seq<u8>>>) -> (r: Result<
    EdgeKey,
    ParseError,
>)
    requires
        old(data).places_before(old(parser).source.id, old(parser).pos()),
        old(parser).wf(srcs@),
        old(data).wf(srcs@),
    ensures
        old(data).places_grow(final(data), old(parser).source.id, final(parser).pos()),
        old(parser).step(final(parser), srcs@),
        final(data).wf(srcs@),
        final(data).var_seq() == old(data).var_seq(),
        final(data).default_target_spec() == old(data).default_target_spec(),
        r is Err ==> final(data).node_seq() == old(data).node_seq(),
        r is Ok ==> state_of(final(data)) == after_build(
            state_of(old(data)),
            edge_view(final(data).edge_map()[r.unwrap().0]),
        ),
        final(data).phony_key() == old(data).phony_key(),
        final(data).rule_map() == old(data).rule_map(),
        match build_spec(
            old(parser).lexer.text(),
            old(parser).source.id,
            old(parser).pos(),
            rule_names(old(data).rule_map()),
            old(data).edge_map().len() + 2 >= u32::MAX,
        ) {
            Ok((o, rl, i, q)) => r is Ok && final(parser).pos() == q && paths_view(
                final(data).edge_map()[r.unwrap().0].outputs@,
            ) == o && final(data).edge_map()[r.unwrap().0].rule_loc == rl && paths_view(
                final(data).edge_map()[r.unwrap().0].inputs@,
            ) == i,
            Err(e) => r == Err::<EdgeKey, ParseError>(e),
        },
        match r {
            Ok(k) => {
                let e = final(data).edge_map()[k.0];
                &&& !old(data).edge_map().contains_key(k.0)
                &&& final(data).edge_map() == old(data).edge_map().insert(k.0, e)
                &&& edge_paths_placed(
                    e.outputs@,
                    e.inputs@,
                    e.rule_loc,
                    old(parser).source.id,
                    old(parser).pos(),
                    final(parser).pos(),
                )
            },
            Err(e) => rule_error_explained(final(data), srcs@, e) && final(data).edge_map() == old(data).edge_map(),
        },
{
    reveal(build_spec);
    let ghost p0 = parser.pos();
    let ghost t = parser.lexer.text();
    let ghost id = parser.source.id;
    let ghost names = rule_names(data.rule_map());
    let ghost edges0 = data.edge_map();
    let (outs, rule, rule_loc, ins) = parse_build_line(parser, data, srcs)?;
    let ghost q = parser.pos();
    assert(build_line_spec(t, id, p0, names) == Ok::<_, ParseError>(
        (paths_view(outs@), rule_loc, paths_view(ins@), q),
    ));
    expect(parser, TokenKind::Newline, srcs)?;
    let ghost q1 = parser.pos();
    assert(expect_spec(t, id, q, TokenKind::Newline) is Ok);
    assert(expect_spec(t, id, q, TokenKind::Newline)->Ok_0.1 == q1);
    parse_bindings(parser, srcs)?;
    let ghost q2 = parser.pos();
    assert(bindings_spec(t, id, q1) is Ok);
    assert(bindings_spec(t, id, q1)->Ok_0.1 == q2);
    assert(edge_paths_placed(outs@, ins@, rule_loc, parser.source.id, p0, parser.pos()));
    proof {
        if edges0.len() + 2 < u32::MAX {
            assert(build_spec(t, id, p0, names, false) == Ok::<_, ParseError>(
                (paths_view(outs@), rule_loc, paths_view(ins@), q2),
            ));
        }
    }
    let ghost ov = paths_view(outs@);
    let ghost iv = paths_view(ins@);
    let r = add_build_edge(
        data,
        rule,
        rule_loc,
        outs,
        ins,
        Ghost(parser.source.id),
        Ghost(p0),
        Ghost(parser.pos()),
        srcs,
    );
    proof {
        if let Ok(k) = r {
            assert(data.edge_map().dom() =~= edges0.dom().insert(k.0));
            lemma_edges_view_insert(edges0, k.0, data.edge_map()[k.0]);
            assert(edge_view(data.edge_map()[k.0]) == (rule_loc, ov, iv));
        }
    }
    r
}

/// Records the paths of a `build` statement in the index and registers its edge.
fn add_build_edge(
    data: &mut Data,
    rule: RuleKey,
    rule_loc: Location,
    outs: Vec<L<Vec<u8>>>,
    ins: Vec<L<Vec<u8>>>,
    id: Ghost<SourceId>,
    lo: Ghost<int>,
    hi: Ghost<int>,
    srcs: Ghost<Seq<Seq<u8>>>,
) -> (r: Result<EdgeKey, ParseError>)
    requires
        old(data).places_before(id@, lo@),
        lo@ <= rule_loc.start < rule_loc.stop <= hi@,
        rule_loc.source_id == id@,
        in_order(outs@, lo@, rule_loc.start as int),
        in_order(ins@, rule_loc.stop as int, hi@),
        forall|j: int| 0 <= j < outs@.len() ==> (#[trigger] outs@[j]).loc.source_id == id@,
        forall|j: int| 0 <= j < ins@.len() ==> (#[trigger] ins@[j]).loc.source_id == id@,
        old(data).wf(srcs@),
        old(data).rule_map().contains_key(rule.0),
        loc_valid(srcs@, rule_loc),
        loc_text(srcs@, rule_loc) == old(data).rule_map()[rule.0].name.elem@,
        forall|j: int|
            0 <= j < outs@.len() ==> path_at(srcs@, (#[trigger] outs@[j]).loc, outs@[j].elem@),
        forall|j: int|
            0 <= j < ins@.len() ==> path_at(srcs@, (#[trigger] ins@[j]).loc, ins@[j].elem@),
    ensures
        old(data).places_grow(final(data), id@, hi@),
        final(data).wf(srcs@),
        final(data).rule_map() == old(data).rule_map(),
        final(data).phony_key() == old(data).phony_key(),
        final(data).var_seq() == old(data).var_seq(),
        final(data).default_target_spec() == old(data).default_target_spec(),
        match r {
            Ok(k) => {
                &&& !old(data).edge_map().contains_key(k.0)
                &&& final(data).edge_map() == old(data).edge_map().insert(
                    k.0,
                    final(data).edge_map()[k.0],
                )
                &&& final(data).edge_map()[k.0].rule == rule
                &&& final(data).edge_map()[k.0].rule_loc == rule_loc
                &&& final(data).edge_map()[k.0].outputs@ == outs@
                &&& final(data).edge_map()[k.0].inputs@ == ins@
                &&& old(data).edge_map().len() + 2 < u32::MAX
            },
            Err(e) => {
                &&& e == (ParseError { kind: ErrorKind::TooManyItems, loc: rule_loc })
                &&& final(data).edge_map() == old(data).edge_map()
                &&& final(data).node_seq() == old(data).node_seq()
                &&& old(data).edge_map().len() + 2 >= u32::MAX
            },
        },
        r is Ok ==> nodes_view(final(data).node_seq()) == record_all(
            record_all(nodes_view(old(data).node_seq()), paths_view(outs@)),
            paths_view(ins@),
        ),
{
    if data.edge_count() >= (u32::MAX - 2) as usize {
        return Err(ParseError { kind: ErrorKind::TooManyItems, loc: rule_loc });
    }
    record_edge_paths(
        data,
        &outs,
        &ins,
        id,
        lo,
        Ghost(rule_loc.start as int),
        hi,
        srcs,
    );
    proof {
        old(data).lemma_before_mono(id@, lo@, rule_loc.start as int);
    }
    let ghost d0 = *data;
    let edge = Edge { rule, rule_loc, outputs: outs, inputs: ins };
    let r = data.add_edge(edge, srcs);
    proof {
        d0.lemma_grow_weaken(data, id@, rule_loc.stop as int, hi@);
        old(data).lemma_grow_trans(&d0, data, id@, hi@, hi@);
    }
    r
}

/// A top-level `name = value` binding.
fn parse_var(parser: &mut Parser, data: &mut Data, srcs: Ghost<Seq<Seq<u8>>>) -> (r: Result<
    (),
    ParseError,
>)
    requires
        old(data).places_before(old(parser).source.id, old(parser).pos()),
        old(parser).wf(srcs@),
        old(data).wf(srcs@),
    ensures
        old(data).places_grow(final(data), old(parser).source.id, final(parser).pos()),
        old(parser).step(final(parser), srcs@),
        r.is_err() ==> r.unwrap_err().kind != ErrorKind::DuplicateRule && r.unwrap_err().kind
            != ErrorKind::UnknownRule,
        r.is_ok() ==> old(parser).pos() < final(parser).pos(),
        final(data).wf(srcs@),
        final(data).node_seq() == old(data).node_seq(),
        final(data).default_target_spec() == old(data).default_target_spec(),
        r is Err ==> final(data).var_seq() == old(data).var_seq(),
        r is Ok ==> state_of(final(data)) == after_var(
            state_of(old(data)),
            vars_view(final(data).var_seq()).last(),
        ),
        r is Ok ==> (final(data).var_seq().last().value.elem@, final(data).var_seq().last().value.loc)
            == let_value(old(parser).lexer.text(), old(parser).source.id, old(parser).pos()),
        final(data).rule_map() == old(data).rule_map(),
        final(data).edge_map() == old(data).edge_map(),
        final(data).phony_key() == old(data).phony_key(),
        match var_spec(
            old(parser).lexer.text(),
            old(parser).source.id,
            old(parser).pos(),
            var_names(old(data).var_seq()),
        ) {
            Ok((kl, q)) => r is Ok && final(parser).pos() == q && final(data).var_seq().last().name.loc
                == kl,
            Err(e) => r == Err::<(), ParseError>(e),
        },
        r.is_ok() ==> {
            let b = final(data).var_seq().last();
            &&& final(data).var_seq() == old(data).var_seq().push(b)
            &&& first_token_is(
                old(parser).lexer.text(),
                old(parser).pos(),
                TokenKind::Ident,
                b.name.loc,
                old(parser).source.id,
            ) || first_token_is(
                old(parser).lexer.text(),
                old(parser).pos(),
                TokenKind::Pool,
                b.name.loc,
                old(parser).source.id,
            )
            &&& loc_text(srcs@, b.name.loc) == b.name.elem@
        },
{
    reveal(var_spec);
    let (key, value) = parse_let(parser, srcs)?;
    let ghost before = data.var_seq();
    proof {
        let nm = key.elem@;
        if exists|i: int| 0 <= i < before.len() && #[trigger] before[i].name.elem@ == nm {
            assert(var_names(before).contains(nm));
        } else {
            assert(!var_names(before).contains(nm));
        }
    }
    let r = data.add_var(key, value, srcs);
    proof {
        if r.is_ok() {
            assert(data.var_seq() =~= before.push(data.var_seq().last()));
            lemma_var_names_push(before, data.var_seq().last());
        }
    }
    r
}

/// `default <path>`.
fn parse_default(parser: &mut Parser, data: &mut Data, srcs: Ghost<Seq<Seq<u8>>>) -> (r: Result<
    (),
    ParseError,
>)
    requires
        old(data).places_before(old(parser).source.id, old(parser).pos()),
        old(parser).wf(srcs@),
        old(data).wf(srcs@),
    ensures
        old(data).places_grow(final(data), old(parser).source.id, final(parser).pos()),
        old(parser).step(final(parser), srcs@),
        r.is_err() ==> r.unwrap_err().kind != ErrorKind::DuplicateRule && r.unwrap_err().kind
            != ErrorKind::UnknownRule,
        final(data).wf(srcs@),
        final(data).node_seq() == old(data).node_seq(),
        final(data).var_seq() == old(data).var_seq(),
        r is Err ==> final(data).default_target_spec() == old(data).default_target_spec(),
        r is Ok ==> state_of(final(data)) == after_default(
            state_of(old(data)),
            default_view(final(data).default_target_spec())->Some_0,
        ),
        r is Ok ==> final(data).default_target_spec()->Some_0.elem@ == default_value(
            old(parser).lexer.text(),
            old(parser).pos(),
        ),
        final(data).rule_map() == old(data).rule_map(),
        final(data).edge_map() == old(data).edge_map(),
        final(data).phony_key() == old(data).phony_key(),
        match default_spec(
            old(parser).lexer.text(),
            old(parser).source.id,
            old(parser).pos(),
            old(data).default_target_spec() is Some,
        ) {
            Ok((loc, q)) => r is Ok && final(parser).pos() == q && final(data).default_target_spec()
                is Some && final(data).default_target_spec().unwrap().loc == loc,
            Err(e) => r == Err::<(), ParseError>(e),
        },
{
    reveal(default_spec);
    let s = parser.lexer.read_path()?;
    data.set_default(s, srcs)
}

/// `include <path>` or `subninja <path>`: reads the path of the file to parse next.
fn parse_include(parser: &mut Parser, srcs: Ghost<Seq<Seq<u8>>>) -> (r: Result<L<Vec<u8>>, ParseError>)
    requires
        old(parser).wf(srcs@),
    ensures
        old(parser).step(final(parser), srcs@),
        match eval_string(old(parser).lexer.text(), old(parser).pos(), true) {
            Ok((v, stop, end)) => r is Ok && r.unwrap().elem@ == v && r.unwrap().loc == (Location {
                start: old(parser).pos() as usize,
                stop: stop as usize,
                source_id: old(parser).source.id,
            }) && final(parser).pos() == skip_ws(old(parser).lexer.text(), end),
            Err((kind, pos)) => r == Err::<L<Vec<u8>>, ParseError>(
                error_at(kind, pos, old(parser).source.id),
            ),
        },
        r.is_err() ==> is_syntax_error(r.unwrap_err().kind),
        r.is_ok() ==> final(parser).pos() < final(parser).lexer.text().len(),
{
    parser.lexer.read_path()
}

/// What one step of `parse_item` found.
enum Step {
    /// An item was parsed; more may follow.
    Continue,
    /// The end of the file.
    End,
    /// A statement that names another file, with its path.
    Named(L<Vec<u8>>),
}

/// Parses the next item.
#[verifier::rlimit(50)]
fn parse_step(parser: &mut Parser, data: &mut Data, srcs: Ghost<Seq<Seq<u8>>>) -> (r: Result<
    Step,
    ParseError,
>)
    requires
        old(data).places_before(old(parser).source.id, old(parser).pos()),
        old(parser).wf(srcs@),
        old(data).wf(srcs@),
    ensures
        old(data).places_grow(final(data), old(parser).source.id, final(parser).pos()),
        old(parser).step(final(parser), srcs@),
        final(data).wf(srcs@),
        final(data).phony_key() == old(data).phony_key(),
        r matches Ok(Step::Continue) ==> old(parser).pos() < final(parser).pos() && items_spec(
            old(parser).lexer.text(),
            old(parser).source.id,
            old(parser).pos(),
            state_of(old(data)),
        ) == items_spec(
            old(parser).lexer.text(),
            old(parser).source.id,
            final(parser).pos(),
            state_of(final(data)),
        ),
        r matches Ok(Step::End) ==> items_spec(
            old(parser).lexer.text(),
            old(parser).source.id,
            old(parser).pos(),
            state_of(old(data)),
        ) == Ok::<_, ParseError>((None::<PathItem>, final(parser).pos(), state_of(final(data))))
            && (next_token(final(parser).lexer.text(), final(parser).pos()) matches Ok((k, _, _))
            && k == TokenKind::Eof),
        r matches Ok(Step::Named(pl)) ==> items_spec(
            old(parser).lexer.text(),
            old(parser).source.id,
            old(parser).pos(),
            state_of(old(data)),
        ) == Ok::<_, ParseError>(
            (Some((pl.elem@, pl.loc)), final(parser).pos(), state_of(final(data))),
        ) && pl.loc.source_id == old(parser).source.id && final(parser).pos() < final(
            parser).lexer.text().len(),
        r matches Err(e) ==> items_spec(
            old(parser).lexer.text(),
            old(parser).source.id,
            old(parser).pos(),
            state_of(old(data)),
        ) == Err::<(Option<PathItem>, int, ParseState), ParseError>(e),
        r matches Err(e) ==> rule_error_explained(final(data), srcs@, e),
{
    let ghost p = parser.pos();
    let ghost t = parser.lexer.text();
    let ghost id = parser.source.id;
    let ghost st0 = state_of(data);
    let first = parser.lexer.peek()?;
    if first.kind != TokenKind::Ident {
        parser.lexer.next()?;
    }
    let ghost q = parser.pos();
    match first.kind {
        TokenKind::Eof => {
            proof {
                crate::lexer::lemma_eof_stays(t, p);
            }
            Ok(Step::End)
        },
        TokenKind::Newline => {
            assert(items_spec(t, id, p, st0) == items_spec(t, id, q, st0));
            Ok(Step::Continue)
        },
        TokenKind::Rule => {
            parse_rule(parser, data, srcs)?;
            assert(items_spec(t, id, p, st0) == items_spec(t, id, parser.pos(), state_of(data)));
            Ok(Step::Continue)
        },
        TokenKind::Build => {
            parse_build(parser, data, srcs)?;
            assert(items_spec(t, id, p, st0) == items_spec(t, id, parser.pos(), state_of(data)));
            Ok(Step::Continue)
        },
        TokenKind::Default => {
            parse_default(parser, data, srcs)?;
            assert(items_spec(t, id, p, st0) == items_spec(t, id, parser.pos(), state_of(data)));
            Ok(Step::Continue)
        },
        TokenKind::Ident => {
            parse_var(parser, data, srcs)?;
            assert(items_spec(t, id, p, st0) == items_spec(t, id, parser.pos(), state_of(data)));
            Ok(Step::Continue)
        },
        TokenKind::Include | TokenKind::Subninja => {
            let path = match parse_include(parser, srcs) {
                Ok(path) => path,
                Err(e) => {
                    return Err(e);
                },
            };
            Ok(Step::Named(path))
        },
        _ => Err(ParseError { kind: ErrorKind::UnexpectedToken, loc: first.loc }),
    }
}

/// Parses items until the end of the file, or until a statement that names another
/// file to read: then that file's path is returned, and the lexer stands after it.
fn parse_item(parser: &mut Parser, data: &mut Data, srcs: Ghost<Seq<Seq<u8>>>) -> (r: Result<
    Option<L<Vec<u8>>>,
    ParseError,
>)
    requires
        old(data).places_before(old(parser).source.id, old(parser).pos()),
        old(parser).wf(srcs@),
        old(data).wf(srcs@),
    ensures
        old(data).places_grow(final(data), old(parser).source.id, final(parser).pos()),
        old(parser).step(final(parser), srcs@),
        final(data).wf(srcs@),
        final(data).phony_key() == old(data).phony_key(),
        match r {
            Ok(Some(path)) => path.loc.source_id == old(parser).source.id && final(parser).pos()
                < final(parser).lexer.text().len(),
            Ok(None) => next_token(final(parser).lexer.text(), final(parser).pos()) matches Ok(
                (k, _, _),
            ) && k == TokenKind::Eof,
            Err(e) => rule_error_explained(final(data), srcs@, e),
        },
        match items_spec(
            old(parser).lexer.text(),
            old(parser).source.id,
            old(parser).pos(),
            state_of(old(data)),
        ) {
            Ok((path, q, st)) => final(parser).pos() == q && state_of(final(data)) == st && match r {
                Ok(Some(pl)) => path == Some((pl.elem@, pl.loc)),
                Ok(None) => path is None,
                Err(_) => false,
            },
            Err(e) => r == Err::<Option<L<Vec<u8>>>, ParseError>(e),
        },
{
    let ghost t = parser.lexer.text();
    let ghost id = parser.source.id;
    let ghost p0 = parser.pos();
    proof {
        data.lemma_grow_refl(id, p0);
    }
    loop
        invariant
            old(parser).step(parser, srcs@),
            data.wf(srcs@),
            data.phony_key() == old(data).phony_key(),
            t == parser.lexer.text(),
            t == old(parser).lexer.text(),
            id == parser.source.id,
            id == old(parser).source.id,
            p0 == old(parser).pos(),
            items_spec(t, id, parser.pos(), state_of(data)) == items_spec(
                t,
                id,
                p0,
                state_of(old(data)),
            ),
            data.places_before(id, parser.pos()),
            old(data).places_grow(data, id, parser.pos()),
        decreases parser.lexer.text().len() - parser.pos(),
    {
        let ghost d0 = *data;
        let ghost q0 = parser.pos();
        let step = parse_step(parser, data, srcs);
        proof {
            old(data).lemma_grow_weaken(&d0, id, q0, parser.pos());
            old(data).lemma_grow_trans(&d0, data, id, parser.pos(), parser.pos());
            d0.lemma_before_mono(id, q0, parser.pos());
        }
        match step {
            Err(e) => {
                return Err(e);
            },
            Ok(Step::End) => {
                return Ok(None);
            },
            Ok(Step::Named(path)) => {
                return Ok(Some(path));
            },
            Ok(Step::Continue) => {},
        }
    }
}

/// Parses `source` from `offset` into `data`, until its end or until a statement
/// names another file; returns that file's path, if any, and where to go on.
pub(crate) fn parse_source(
    source: &Source,
    offset: usize,
    data: &mut Data,
    srcs: Ghost<Seq<Seq<u8>>>,
) -> (r: Result<(Option<L<Vec<u8>>>, usize), ParseError>)
    requires
        old(data).places_before(source.id, offset as int),
        source.wf(),
        offset < source.text@.len(),
        (source.id.0 as int) < srcs@.len(),
        srcs@[source.id.0 as int] == source.text@,
        old(data).wf(srcs@),
    ensures
        r is Ok ==> offset <= r.unwrap().1 && old(data).places_grow(
            final(data),
            source.id,
            r.unwrap().1 as int,
        ),
        final(data).wf(srcs@),
        match r {
            Ok((path, next)) => next <= source.text@.len() && match path {
                Some(p) => p.loc.source_id == source.id && next < source.text@.len(),
                None => true,
            },
            Err(e) => rule_error_explained(final(data), srcs@, e),
        },
        match items_spec(source.text@, source.id, offset as int, state_of(old(data))) {
            Ok((path, q, st)) => r is Ok && r.unwrap().1 == q && state_of(final(data)) == st
                && match r.unwrap().0 {
                Some(pl) => path == Some((pl.elem@, pl.loc)),
                None => path is None,
            },
            Err(e) => r == Err::<(Option<L<Vec<u8>>>, usize), ParseError>(e),
        },
{
    let lexer = Lexer::resume(source.text_parser(), source.id, offset);
    let mut parser = Parser { lexer, source };
    let path = match parse_item(&mut parser, data, srcs) {
        Ok(path) => path,
        Err(e) => {
            return Err(e);
        },
    };
    Ok((path, parser.lexer.offset()))
}


} // verus!
