use vstd::prelude::*;

use crate::error::{is_syntax_error, ErrorKind, ParseError};

verus! {

pub const NL: u8 = 10;
pub const CR: u8 = 13;
pub const SPACE: u8 = 32;
pub const HASH: u8 = 35;
pub const DOLLAR: u8 = 36;
pub const DASH: u8 = 45;
pub const DOT: u8 = 46;
pub const COLON: u8 = 58;
pub const EQUALS: u8 = 61;
pub const AT: u8 = 64;
pub const UNDERSCORE: u8 = 95;
pub const LBRACE: u8 = 123;
pub const PIPE: u8 = 124;
pub const RBRACE: u8 = 125;

/// Identifier of a loaded file within one session.
#[derive(Debug, Clone, Copy, PartialEq, Eq, Structural, Hash)]
pub struct SourceId(pub u32);

/// A half-open byte range `[start, stop)` in the text of one source.
#[derive(Debug, Clone, Copy, PartialEq, Eq, Structural)]
pub struct Location {
    pub start: usize,
    pub stop: usize,
    pub source_id: SourceId,
}

#[derive(Debug, Clone, Copy, PartialEq, Eq, Structural)]
pub enum TokenKind {
    Eof,
    Ident,
    Equals,
    Colon,
    Newline,
    Rule,
    Build,
    Default,
    Pool,
    Include,
    Subninja,
    Indent,
    Pipe,
    Pipe2,
    PipeAt,
    Comment,
}

#[derive(Debug, Clone, Copy, PartialEq, Eq, Structural)]
pub struct Token {
    pub kind: TokenKind,
    pub loc: Location,
}

/// A value together with the place it was read from.
#[derive(Debug)]
pub struct L<T> {
    pub elem: T,
    pub loc: Location,
}

impl<T> L<T> {
    pub fn new(elem: T, loc: Location) -> (r: Self)
        ensures
            r.elem == elem,
            r.loc == loc,
    {
        L { elem, loc }
    }
}

pub open spec fn byte_at(t: Seq<u8>, i: int) -> u8 {
    if 0 <= i < t.len() {
        t[i]
    } else {
        0
    }
}

/// Text as the lexer scans it: one NUL byte at the end and nowhere else.
pub open spec fn wf_text(t: Seq<u8>) -> bool {
    &&& 0 < t.len() < usize::MAX
    &&& t[t.len() - 1] == 0
    &&& forall|i: int| 0 <= i < t.len() - 1 ==> t[i] != 0
}

pub open spec fn is_simple_varname_byte(b: u8) -> bool {
    // letters, digits
    (97 <= b <= 122) || (65 <= b <= 90) || (48 <= b <= 57) || b == UNDERSCORE || b == DASH
}

pub open spec fn is_varname_byte(b: u8) -> bool {
    is_simple_varname_byte(b) || b == DOT
}

/// End of the run of variable-name bytes (letters, digits, `_`, `-`, `.`) from `p`.
pub open spec fn varname_end(t: Seq<u8>, p: int) -> int
    decreases t.len() - p,
{
    if 0 <= p < t.len() && is_varname_byte(t[p]) {
        varname_end(t, p + 1)
    } else {
        p
    }
}

/// End of the run of simple variable-name bytes (no `.`) from `p`.
pub open spec fn simple_varname_end(t: Seq<u8>, p: int) -> int
    decreases t.len() - p,
{
    if 0 <= p < t.len() && is_simple_varname_byte(t[p]) {
        simple_varname_end(t, p + 1)
    } else {
        p
    }
}

/// End of the run of spaces from `p`.
pub open spec fn spaces_end(t: Seq<u8>, p: int) -> int
    decreases t.len() - p,
{
    if 0 <= p < t.len() && t[p] == SPACE {
        spaces_end(t, p + 1)
    } else {
        p
    }
}

/// First position from `p` that holds a newline or the NUL sentinel.
pub open spec fn line_end(t: Seq<u8>, p: int) -> int
    decreases t.len() - p,
{
    if 0 <= p < t.len() && t[p] != 0 && t[p] != NL {
        line_end(t, p + 1)
    } else {
        p
    }
}

/// The kind of a word: a keyword when it is spelled as one, else an identifier.
pub open spec fn keyword_kind(w: Seq<u8>) -> TokenKind {
    if w == seq![98u8, 117, 105, 108, 100] {  // build
        TokenKind::Build
    } else if w == seq![112u8, 111, 111, 108] {  // pool
        TokenKind::Pool
    } else if w == seq![114u8, 117, 108, 101] {  // rule
        TokenKind::Rule
    } else if w == seq![100u8, 101, 102, 97, 117, 108, 116] {  // default
        TokenKind::Default
    } else if w == seq![105u8, 110, 99, 108, 117, 100, 101] {  // the inclusion keyword
        TokenKind::Include
    } else if w == seq![115u8, 117, 98, 110, 105, 110, 106, 97] {  // subninja
        TokenKind::Subninja
    } else {
        TokenKind::Ident
    }
}

/// A token that starts at `p` without leading spaces: its kind and end.
pub open spec fn scan_plain(t: Seq<u8>, p: int) -> Option<(TokenKind, int)> {
    let c = byte_at(t, p);
    if c == EQUALS {
        Some((TokenKind::Equals, p + 1))
    } else if c == COLON {
        Some((TokenKind::Colon, p + 1))
    } else if c == PIPE {
        if byte_at(t, p + 1) == AT {
            Some((TokenKind::PipeAt, p + 2))
        } else if byte_at(t, p + 1) == PIPE {
            Some((TokenKind::Pipe2, p + 2))
        } else {
            Some((TokenKind::Pipe, p + 1))
        }
    } else if is_varname_byte(c) {
        Some((keyword_kind(t.subrange(p, varname_end(t, p))), varname_end(t, p)))
    } else if c == 0 {
        Some((TokenKind::Eof, if p < t.len() { p + 1 } else { p }))
    } else {
        None
    }
}

/// The longest token at `p`, comments included: its kind and end, or `None` when no
/// token starts there.
pub open spec fn scan_token(t: Seq<u8>, p: int) -> Option<(TokenKind, int)> {
    let sp = spaces_end(t, p);
    let c = byte_at(t, sp);
    if c == HASH && byte_at(t, line_end(t, sp + 1)) == NL {
        Some((TokenKind::Comment, line_end(t, sp + 1) + 1))
    } else if c == CR && byte_at(t, sp + 1) == NL {
        Some((TokenKind::Newline, sp + 2))
    } else if c == NL {
        Some((TokenKind::Newline, sp + 1))
    } else if sp > p {
        Some((TokenKind::Indent, sp))
    } else {
        scan_plain(t, p)
    }
}

/// Where scanning goes on after skipping spaces and escaped line breaks from `p`.
pub open spec fn skip_ws(t: Seq<u8>, p: int) -> int
    decreases t.len() - p,
{
    if p < 0 || p >= t.len() {
        p
    } else if t[p] == SPACE {
        skip_ws(t, p + 1)
    } else if t[p] == DOLLAR && byte_at(t, p + 1) == CR && byte_at(t, p + 2) == NL {
        skip_ws(t, p + 3)
    } else if t[p] == DOLLAR && byte_at(t, p + 1) == NL {
        skip_ws(t, p + 2)
    } else {
        p
    }
}

/// Where the lexer stands after a token of kind `k` that ends at `e`.
pub open spec fn token_after(t: Seq<u8>, k: TokenKind, e: int) -> int {
    if k == TokenKind::Newline || k == TokenKind::Eof || k == TokenKind::Comment {
        e
    } else {
        skip_ws(t, e)
    }
}

/// The next token from `p` that is not a comment, as `(kind, start, end)`, or the
/// position where scanning failed.
pub open spec fn next_token(t: Seq<u8>, p: int) -> Result<(TokenKind, int, int), int>
    decreases t.len() - p,
{
    match scan_token(t, p) {
        None => Err(p),
        Some((k, e)) => if k == TokenKind::Comment {
            if p < e <= t.len() {
                next_token(t, e)
            } else {
                Err(p)
            }
        } else {
            Ok((k, token_start(k, p, e), e))
        },
    }
}

/// Where a token of kind `k` found at `p` and ending at `e` starts: the end of input
/// is the sentinel byte itself.
pub open spec fn token_start(k: TokenKind, p: int, e: int) -> int {
    if k == TokenKind::Eof {
        e - 1
    } else {
        p
    }
}

/// Prefixes the text of a successful scan with `w`.
pub open spec fn with_prefix(w: Seq<u8>, r: Result<(Seq<u8>, int, int), (ErrorKind, int)>) -> Result<
    (Seq<u8>, int, int),
    (ErrorKind, int),
> {
    match r {
        Ok((v, stop, end)) => Ok((w + v, stop, end)),
        Err(x) => Err(x),
    }
}

/// Reads a value (`path == false`) or one path (`path == true`) from `p`, decoding
/// escapes. On success: the decoded bytes, where the literal stops, and where
/// scanning goes on. A value runs to the end of the line and consumes the newline; a
/// path stops before an unescaped space, `:`, `|` or line break. `$$`, `$ ` and `$:`
/// stand for `$`, space and `:`; `$` before a line break joins the next line without
/// its indentation; `${name}` and `$name` stand for the text `name`.
pub open spec fn eval_string(t: Seq<u8>, p: int, path: bool) -> Result<
    (Seq<u8>, int, int),
    (ErrorKind, int),
>
    decreases t.len() - p,
{
    if p < 0 || p >= t.len() {
        Err((ErrorKind::UnexpectedEof, p))
    } else {
        let c = t[p];
        let d = byte_at(t, p + 1);
        if c == 0 {
            Err((ErrorKind::UnexpectedEof, p))
        } else if c == CR {
            if d == NL {
                if path {
                    Ok((Seq::empty(), p, p))
                } else {
                    Ok((Seq::empty(), p, p + 2))
                }
            } else {
                Err((ErrorKind::UnexpectedChar, p))
            }
        } else if c == NL {
            if path {
                Ok((Seq::empty(), p, p))
            } else {
                Ok((Seq::empty(), p, p + 1))
            }
        } else if c == SPACE || c == COLON || c == PIPE {
            if path {
                Ok((Seq::empty(), p, p))
            } else {
                with_prefix(seq![c], eval_string(t, p + 1, path))
            }
        } else if c == DOLLAR {
            if d == DOLLAR || d == SPACE || d == COLON {
                with_prefix(seq![d], eval_string(t, p + 2, path))
            } else if d == CR && byte_at(t, p + 2) == NL {
                let q = spaces_end(t, p + 3);
                if p < q <= t.len() {
                    eval_string(t, q, path)
                } else {
                    Err((ErrorKind::BadEscape, p))
                }
            } else if d == NL {
                let q = spaces_end(t, p + 2);
                if p < q <= t.len() {
                    eval_string(t, q, path)
                } else {
                    Err((ErrorKind::BadEscape, p))
                }
            } else if d == LBRACE {
                let e = varname_end(t, p + 2);
                if p + 2 < e < t.len() && t[e] == RBRACE {
                    with_prefix(t.subrange(p + 2, e), eval_string(t, e + 1, path))
                } else {
                    Err((ErrorKind::BadEscape, p))
                }
            } else if is_simple_varname_byte(d) {
                let e = simple_varname_end(t, p + 1);
                if p + 1 < e <= t.len() {
                    with_prefix(t.subrange(p + 1, e), eval_string(t, e, path))
                } else {
                    Err((ErrorKind::BadEscape, p))
                }
            } else {
                Err((ErrorKind::BadEscape, p))
            }
        } else {
            with_prefix(seq![c], eval_string(t, p + 1, path))
        }
    }
}

pub open spec fn error_at(kind: ErrorKind, pos: int, id: SourceId) -> ParseError {
    ParseError { kind, loc: Location { start: pos as usize, stop: (pos + 1) as usize, source_id: id } }
}

pub open spec fn token_of(k: TokenKind, start: int, stop: int, id: SourceId) -> Token {
    Token { kind: k, loc: Location { start: start as usize, stop: stop as usize, source_id: id } }
}

proof fn lemma_prefix_assoc(a: Seq<u8>, b: Seq<u8>, r: Result<(Seq<u8>, int, int), (ErrorKind, int)>)
    ensures
        with_prefix(a, with_prefix(b, r)) == with_prefix(a + b, r),
{
    match r {
        Ok((v, s, e)) => {
            assert((a + b) + v =~= a + (b + v));
        },
        Err(_) => {},
    }
}

/// The end of input does not move: scanning again where it was found finds it again.
pub proof fn lemma_eof_stays(t: Seq<u8>, p: int)
    requires
        wf_text(t),
        0 <= p <= t.len(),
    ensures
        match next_token(t, p) {
            Ok((k, s, e)) => k == TokenKind::Eof ==> e == t.len() && next_token(t, e) == next_token(
                t,
                p,
            ),
            Err(_) => true,
        },
    decreases t.len() - p,
{
    match scan_token(t, p) {
        None => {},
        Some((k, e)) => {
            if k == TokenKind::Comment {
                if p < e <= t.len() {
                    lemma_eof_stays(t, e);
                }
            } else {
                let w = t.subrange(p, varname_end(t, p));
                assert(keyword_kind(w) != TokenKind::Eof);
                if k == TokenKind::Eof {
                    assert(byte_at(t, spaces_end(t, p)) == 0);
                }
            }
        },
    }
}

proof fn lemma_varname_end(t: Seq<u8>, p: int)
    requires
        wf_text(t),
        0 <= p < t.len(),
    ensures
        p <= varname_end(t, p) < t.len(),
        forall|i: int| p <= i < varname_end(t, p) ==> is_varname_byte(#[trigger] t[i]),
    decreases t.len() - p,
{
    if is_varname_byte(t[p]) {
        lemma_varname_end(t, p + 1);
    }
}

proof fn lemma_simple_varname_end(t: Seq<u8>, p: int)
    requires
        wf_text(t),
        0 <= p < t.len(),
    ensures
        p <= simple_varname_end(t, p) < t.len(),
        forall|i: int| p <= i < simple_varname_end(t, p) ==> is_simple_varname_byte(#[trigger] t[i]),
    decreases t.len() - p,
{
    if is_simple_varname_byte(t[p]) {
        lemma_simple_varname_end(t, p + 1);
    }
}

proof fn lemma_spaces_end(t: Seq<u8>, p: int)
    requires
        wf_text(t),
        0 <= p < t.len(),
    ensures
        p <= spaces_end(t, p) < t.len(),
    decreases t.len() - p,
{
    if t[p] == SPACE {
        lemma_spaces_end(t, p + 1);
    }
}

proof fn lemma_line_end(t: Seq<u8>, p: int)
    requires
        wf_text(t),
        0 <= p < t.len(),
    ensures
        p <= line_end(t, p) < t.len(),
    decreases t.len() - p,
{
    if t[p] != 0 && t[p] != NL {
        lemma_line_end(t, p + 1);
    }
}

proof fn lemma_skip_ws(t: Seq<u8>, p: int)
    requires
        wf_text(t),
        0 <= p < t.len(),
    ensures
        p <= skip_ws(t, p) < t.len(),
    decreases t.len() - p,
{
    if t[p] == SPACE {
        lemma_skip_ws(t, p + 1);
    } else if t[p] == DOLLAR && byte_at(t, p + 1) == CR && byte_at(t, p + 2) == NL {
        lemma_skip_ws(t, p + 3);
    } else if t[p] == DOLLAR && byte_at(t, p + 1) == NL {
        lemma_skip_ws(t, p + 2);
    }
}

fn simple_varname_byte(b: u8) -> (r: bool)
    ensures
        r == is_simple_varname_byte(b),
{
    (97 <= b && b <= 122) || (65 <= b && b <= 90) || (48 <= b && b <= 57) || b == UNDERSCORE
        || b == DASH
}

fn varname_byte(b: u8) -> (r: bool)
    ensures
        r == is_varname_byte(b),
{
    simple_varname_byte(b) || b == DOT
}

fn find_varname_end(t: &[u8], p: usize) -> (e: usize)
    requires
        wf_text(t@),
        p < t@.len(),
    ensures
        e == varname_end(t@, p as int),
        p <= e < t@.len(),
{
    let mut i: usize = p;
    while varname_byte(t[i])
        invariant
            wf_text(t@),
            p <= i < t@.len(),
            varname_end(t@, p as int) == varname_end(t@, i as int),
        decreases t@.len() - i,
    {
        i = i + 1;
    }
    i
}

fn find_simple_varname_end(t: &[u8], p: usize) -> (e: usize)
    requires
        wf_text(t@),
        p < t@.len(),
    ensures
        e == simple_varname_end(t@, p as int),
        p <= e < t@.len(),
{
    let mut i: usize = p;
    while simple_varname_byte(t[i])
        invariant
            wf_text(t@),
            p <= i < t@.len(),
            simple_varname_end(t@, p as int) == simple_varname_end(t@, i as int),
        decreases t@.len() - i,
    {
        i = i + 1;
    }
    i
}

fn find_spaces_end(t: &[u8], p: usize) -> (e: usize)
    requires
        wf_text(t@),
        p < t@.len(),
    ensures
        e == spaces_end(t@, p as int),
        p <= e < t@.len(),
{
    let mut i: usize = p;
    while t[i] == SPACE
        invariant
            wf_text(t@),
            p <= i < t@.len(),
            spaces_end(t@, p as int) == spaces_end(t@, i as int),
        decreases t@.len() - i,
    {
        i = i + 1;
    }
    i
}

fn find_line_end(t: &[u8], p: usize) -> (e: usize)
    requires
        wf_text(t@),
        p < t@.len(),
    ensures
        e == line_end(t@, p as int),
        p <= e < t@.len(),
{
    let mut i: usize = p;
    while t[i] != 0 && t[i] != NL
        invariant
            wf_text(t@),
            p <= i < t@.len(),
            line_end(t@, p as int) == line_end(t@, i as int),
        decreases t@.len() - i,
    {
        i = i + 1;
    }
    i
}


/// Appends `t[a..b]` to `acc`.
pub fn push_range(acc: &mut Vec<u8>, t: &[u8], a: usize, b: usize)
    requires
        a <= b <= t@.len(),
    ensures
        final(acc)@ == old(acc)@ + t@.subrange(a as int, b as int),
{
    let mut i: usize = a;
    while i < b
        invariant
            a <= i <= b <= t@.len(),
            acc@ == old(acc)@ + t@.subrange(a as int, i as int),
        decreases b - i,
    {
        acc.push(t[i]);
        i = i + 1;
        assert(acc@ =~= old(acc)@ + t@.subrange(a as int, i as int));
    }
}

/// Whether two byte strings are equal.
pub fn same_bytes(a: &[u8], b: &[u8]) -> (r: bool)
    ensures
        r == (a@ == b@),
{
    if a.len() != b.len() {
        return false;
    }
    let mut i: usize = 0;
    while i < a.len()
        invariant
            a@.len() == b@.len(),
            0 <= i <= a@.len(),
            forall|j: int| 0 <= j < i ==> a@[j] == b@[j],
        decreases a@.len() - i,
    {
        if a[i] != b[i] {
            return false;
        }
        i = i + 1;
    }
    assert(a@ =~= b@);
    true
}

fn word_is(t: &[u8], p: usize, e: usize, w: &[u8]) -> (r: bool)
    requires
        p <= e <= t@.len(),
    ensures
        r == (t@.subrange(p as int, e as int) == w@),
{
    if e - p != w.len() {
        return false;
    }
    let mut i: usize = 0;
    while i < w.len()
        invariant
            p <= e <= t@.len(),
            e - p == w@.len(),
            0 <= i <= w@.len(),
            forall|j: int| 0 <= j < i ==> t@[p + j] == w@[j],
        decreases w@.len() - i,
    {
        if t[p + i] != w[i] {
            assert(t@.subrange(p as int, e as int)[i as int] != w@[i as int]);
            return false;
        }
        i = i + 1;
    }
    assert(t@.subrange(p as int, e as int) =~= w@);
    true
}

fn word_kind(t: &[u8], p: usize, e: usize) -> (k: TokenKind)
    requires
        p <= e <= t@.len(),
    ensures
        k == keyword_kind(t@.subrange(p as int, e as int)),
{
    let build: [u8; 5] = [98, 117, 105, 108, 100];
    let pool: [u8; 4] = [112, 111, 111, 108];
    let rule: [u8; 4] = [114, 117, 108, 101];
    let default: [u8; 7] = [100, 101, 102, 97, 117, 108, 116];
    let inc: [u8; 7] = [105, 110, 99, 108, 117, 100, 101];
    let subninja: [u8; 8] = [115, 117, 98, 110, 105, 110, 106, 97];
    proof {
        assert(build@ =~= seq![98u8, 117, 105, 108, 100]);
        assert(pool@ =~= seq![112u8, 111, 111, 108]);
        assert(rule@ =~= seq![114u8, 117, 108, 101]);
        assert(default@ =~= seq![100u8, 101, 102, 97, 117, 108, 116]);
        assert(inc@ =~= seq![105u8, 110, 99, 108, 117, 100, 101]);
        assert(subninja@ =~= seq![115u8, 117, 98, 110, 105, 110, 106, 97]);
    }
    if word_is(t, p, e, build.as_slice()) {
        TokenKind::Build
    } else if word_is(t, p, e, pool.as_slice()) {
        TokenKind::Pool
    } else if word_is(t, p, e, rule.as_slice()) {
        TokenKind::Rule
    } else if word_is(t, p, e, default.as_slice()) {
        TokenKind::Default
    } else if word_is(t, p, e, inc.as_slice()) {
        TokenKind::Include
    } else if word_is(t, p, e, subninja.as_slice()) {
        TokenKind::Subninja
    } else {
        TokenKind::Ident
    }
}

fn scan_plain_at(t: &[u8], p: usize) -> (r: Option<(TokenKind, usize)>)
    requires
        wf_text(t@),
        p < t@.len(),
    ensures
        match scan_plain(t@, p as int) {
            Some((k, e)) => r == Some((k, e as usize)) && p < e <= t@.len() && (k != TokenKind::Eof
                ==> e < t@.len()),
            None => r is None,
        },
{
    let c = t[p];
    if c == EQUALS {
        Some((TokenKind::Equals, p + 1))
    } else if c == COLON {
        Some((TokenKind::Colon, p + 1))
    } else if c == PIPE {
        if t[p + 1] == AT {
            Some((TokenKind::PipeAt, p + 2))
        } else if t[p + 1] == PIPE {
            Some((TokenKind::Pipe2, p + 2))
        } else {
            Some((TokenKind::Pipe, p + 1))
        }
    } else if varname_byte(c) {
        let e = find_varname_end(t, p);
        proof {
            lemma_varname_end(t@, p + 1);
        }
        Some((word_kind(t, p, e), e))
    } else if c == 0 {
        Some((TokenKind::Eof, p + 1))
    } else {
        None
    }
}

fn scan_at(t: &[u8], p: usize) -> (r: Option<(TokenKind, usize)>)
    requires
        wf_text(t@),
        p < t@.len(),
    ensures
        match scan_token(t@, p as int) {
            Some((k, e)) => r == Some((k, e as usize)) && p < e <= t@.len() && (k != TokenKind::Eof
                ==> e < t@.len()),
            None => r is None,
        },
{
    let sp = find_spaces_end(t, p);
    let c = t[sp];
    if c == HASH {
        let le = find_line_end(t, sp + 1);
        if t[le] == NL {
            return Some((TokenKind::Comment, le + 1));
        }
    }
    if c == CR && t[sp + 1] == NL {
        Some((TokenKind::Newline, sp + 2))
    } else if c == NL {
        Some((TokenKind::Newline, sp + 1))
    } else if sp > p {
        Some((TokenKind::Indent, sp))
    } else {
        scan_plain_at(t, p)
    }
}

pub struct Lexer<'x> {
    text: &'x [u8],
    offset: usize,
    source_id: SourceId,
}

impl<'x> Lexer<'x> {
    /// The text being scanned, sentinel included.
    pub closed spec fn text(&self) -> Seq<u8> {
        self.text@
    }

    /// The position of the next byte to scan.
    pub closed spec fn pos(&self) -> int {
        self.offset as int
    }

    pub closed spec fn source(&self) -> SourceId {
        self.source_id
    }

    pub open spec fn wf(&self) -> bool {
        wf_text(self.text()) && 0 <= self.pos() <= self.text().len()
    }

    /// Tokens and values after a call: text and source stay, the lexer stays well formed.
    pub open spec fn same_text(&self, other: &Lexer) -> bool {
        other.wf() && other.text() == self.text() && other.source() == self.source()
    }

    /// A lexer at the start of `text`, which must end in the NUL sentinel.
    pub fn new(text: &'x [u8], source_id: SourceId) -> (r: Lexer<'x>)
        requires
            wf_text(text@),
        ensures
            r.wf(),
            r.text() == text@,
            r.pos() == 0,
            r.source() == source_id,
    {
        Lexer { text, offset: 0, source_id }
    }

    /// A lexer that resumes scanning `text` at `offset`.
    pub fn resume(text: &'x [u8], source_id: SourceId, offset: usize) -> (r: Lexer<'x>)
        requires
            wf_text(text@),
            offset < text@.len(),
        ensures
            r.wf(),
            r.text() == text@,
            r.pos() == offset,
            r.source() == source_id,
    {
        Lexer { text, offset, source_id }
    }

    pub fn offset(&self) -> (r: usize)
        ensures
            r == self.pos(),
    {
        self.offset
    }

    pub fn source_id(&self) -> (r: SourceId)
        ensures
            r == self.source(),
    {
        self.source_id
    }

    /// Skips spaces and escaped line breaks.
    fn eat_whitespace(&mut self)
        requires
            old(self).wf(),
            old(self).pos() < old(self).text().len(),
        ensures
            old(self).same_text(final(self)),
            final(self).pos() == skip_ws(old(self).text(), old(self).pos()),
    {
        let t = self.text;
        let mut i = self.offset;
        loop
            invariant
                wf_text(t@),
                t@ == self.text(),
                i < t@.len(),
                self.pos() == old(self).pos(),
                old(self).same_text(self),
                skip_ws(t@, self.pos()) == skip_ws(t@, i as int),
            ensures
                i < t@.len(),
                i == skip_ws(old(self).text(), old(self).pos()),
            decreases t@.len() - i,
        {
            if t[i] == SPACE {
                i = i + 1;
            } else if t[i] == DOLLAR && t[i + 1] == CR && t[i + 2] == NL {
                i = i + 3;
            } else if t[i] == DOLLAR && t[i + 1] == NL {
                i = i + 2;
            } else {
                break;
            }
        }
        self.offset = i;
    }

    /// Scans one token, comments included.
    pub fn next_impl(&mut self) -> (r: Result<Token, ParseError>)
        requires
            old(self).wf(),
        ensures
            old(self).same_text(final(self)),
            old(self).pos() <= final(self).pos(),
            r.is_err() ==> is_syntax_error(r.unwrap_err().kind),
            match scan_token(old(self).text(), old(self).pos()) {
                Some((k, e)) => r == Ok::<Token, ParseError>(
                    token_of(k, token_start(k, old(self).pos(), e), e, old(self).source()),
                ) && final(self).pos() == token_after(old(self).text(), k, e) && e <= final(
                    self).pos() && (k != TokenKind::Eof ==> old(self).pos() < e < old(
                    self).text().len()),
                None => r == Err::<Token, ParseError>(
                    error_at(ErrorKind::UnexpectedChar, old(self).pos(), old(self).source()),
                ),
            },
    {
        let p = self.offset;
        if p == self.text.len() {
            return Ok(
                Token {
                    kind: TokenKind::Eof,
                    loc: Location { start: p - 1, stop: p, source_id: self.source_id },
                },
            );
        }
        match scan_at(self.text, p) {
            None => Err(
                ParseError {
                    kind: ErrorKind::UnexpectedChar,
                    loc: Location { start: p, stop: p + 1, source_id: self.source_id },
                },
            ),
            Some((kind, e)) => {
                self.offset = e;
                if kind != TokenKind::Newline && kind != TokenKind::Eof && kind
                    != TokenKind::Comment {
                    proof {
                        lemma_skip_ws(self.text(), e as int);
                    }
                    self.eat_whitespace();
                }
                let start = if kind == TokenKind::Eof {
                    e - 1
                } else {
                    p
                };
                Ok(Token { kind, loc: Location { start, stop: e, source_id: self.source_id } })
            },
        }
    }

    /// The next token that is not a comment.
    pub fn next(&mut self) -> (r: Result<Token, ParseError>)
        requires
            old(self).wf(),
        ensures
            old(self).same_text(final(self)),
            old(self).pos() <= final(self).pos(),
            r.is_err() ==> is_syntax_error(r.unwrap_err().kind),
            match next_token(old(self).text(), old(self).pos()) {
                Ok((k, s, e)) => r == Ok::<Token, ParseError>(token_of(k, s, e, old(self).source()))
                    && final(self).pos() == token_after(old(self).text(), k, e) && s < e <= final(
                    self).pos() && (k != TokenKind::Eof ==> old(self).pos() <= s && e < old(
                    self).text().len()),
                Err(pos) => r == Err::<Token, ParseError>(
                    error_at(ErrorKind::UnexpectedChar, pos, old(self).source()),
                ),
            },
    {
        loop
            invariant
                old(self).same_text(self),
                old(self).pos() <= self.pos(),
                next_token(self.text(), self.pos()) == next_token(old(self).text(), old(self).pos()),
            decreases self.text().len() - self.pos(),
        {
            let ghost p = self.pos();
            let r = self.next_impl();
            match r {
                Ok(tok) => {
                    if tok.kind != TokenKind::Comment {
                        return Ok(tok);
                    }
                },
                Err(err) => {
                    return Err(err);
                },
            }
        }
    }

    /// Consumes the next token only when it is of kind `kind`.
    pub fn maybe_peek(&mut self, kind: TokenKind) -> (r: Result<bool, ParseError>)
        requires
            old(self).wf(),
        ensures
            old(self).same_text(final(self)),
            old(self).pos() <= final(self).pos(),
            r.is_err() ==> is_syntax_error(r.unwrap_err().kind),
            match next_token(old(self).text(), old(self).pos()) {
                Ok((k, s, e)) => r == Ok::<bool, ParseError>(k == kind) && final(self).pos() == (if k
                    == kind {
                    token_after(old(self).text(), k, e)
                } else {
                    old(self).pos()
                }),
                Err(pos) => r == Err::<bool, ParseError>(
                    error_at(ErrorKind::UnexpectedChar, pos, old(self).source()),
                ),
            },
    {
        let last_offset = self.offset;
        let r = self.next()?;
        if r.kind == kind {
            return Ok(true);
        }
        self.offset = last_offset;
        Ok(false)
    }

    /// The next token that is not a comment, without consuming it.
    pub fn peek(&mut self) -> (r: Result<Token, ParseError>)
        requires
            old(self).wf(),
        ensures
            old(self).same_text(final(self)),
            old(self).pos() <= final(self).pos(),
            r.is_err() ==> is_syntax_error(r.unwrap_err().kind),
            final(self).pos() == old(self).pos(),
            match next_token(old(self).text(), old(self).pos()) {
                Ok((k, s, e)) => r == Ok::<Token, ParseError>(token_of(k, s, e, old(self).source())),
                Err(pos) => r == Err::<Token, ParseError>(
                    error_at(ErrorKind::UnexpectedChar, pos, old(self).source()),
                ),
            },
    {
        let last_offset = self.offset;
        let r = self.next();
        self.offset = last_offset;
        r
    }

    /// Reads a value (`path == false`) or one path (`path == true`), decoding escapes;
    /// the location spans the literal as written. After a path, spaces are skipped.
    pub fn read_eval_string(&mut self, path: bool) -> (r: Result<L<Vec<u8>>, ParseError>)
        requires
            old(self).wf(),
        ensures
            old(self).same_text(final(self)),
            old(self).pos() <= final(self).pos(),
            r.is_err() ==> is_syntax_error(r.unwrap_err().kind),
            match eval_string(old(self).text(), old(self).pos(), path) {
                Ok((v, stop, end)) => r.is_ok() && r.unwrap().elem@ == v && r.unwrap().loc == (Location {
                    start: old(self).pos() as usize,
                    stop: stop as usize,
                    source_id: old(self).source(),
                }) && old(self).pos() <= stop <= end <= final(self).pos() && end < old(self).text().len()
                    && final(self).pos() < old(self).text().len() && (v.len() > 0 ==> old(self).pos() < stop) && final(self).pos() == (if path {
                    skip_ws(old(self).text(), end)
                } else {
                    end
                }),
                Err((kind, pos)) => r.is_err() && r.unwrap_err() == error_at(
                    kind,
                    pos,
                    old(self).source(),
                ),
            },
    {
        let t = self.text;
        let p0 = self.offset;
        let id = self.source_id;
        if p0 == t.len() {
            return Err(
                ParseError {
                    kind: ErrorKind::UnexpectedEof,
                    loc: Location { start: p0, stop: p0 + 1, source_id: id },
                },
            );
        }
        let mut acc: Vec<u8> = Vec::new();
        let mut i: usize = p0;
        assert(acc@ + Seq::<u8>::empty() =~= Seq::<u8>::empty());
        let mut stop: usize = p0;
        let mut end: usize = p0;
        loop
            invariant
                wf_text(t@),
                t@ == self.text(),
                old(self).same_text(self),
                p0 == old(self).pos(),
                id == old(self).source(),
                p0 <= i < t@.len(),
                acc@.len() > 0 ==> p0 < i,
                with_prefix(acc@, eval_string(t@, i as int, path)) == eval_string(
                    t@,
                    p0 as int,
                    path,
                ),
            ensures
                eval_string(t@, p0 as int, path) == Ok::<_, (ErrorKind, int)>(
                    (acc@, stop as int, end as int),
                ),
                p0 <= stop <= end < t@.len(),
                acc@.len() > 0 ==> p0 < stop,
            decreases t@.len() - i,
        {
            let ghost acc0 = acc@;
            let c = t[i];
            if c == 0 {
                return Err(
                    ParseError {
                        kind: ErrorKind::UnexpectedEof,
                        loc: Location { start: i, stop: i + 1, source_id: id },
                    },
                );
            } else if c == CR {
                if t[i + 1] == NL {
                    assert(acc@ + Seq::<u8>::empty() =~= acc@);
                    if path {
                        stop = i;
                    end = i;
                    break;
                    } else {
                        stop = i;
                    end = i + 2;
                    break;
                    }
                } else {
                    return Err(
                        ParseError {
                            kind: ErrorKind::UnexpectedChar,
                            loc: Location { start: i, stop: i + 1, source_id: id },
                        },
                    );
                }
            } else if c == NL {
                assert(acc@ + Seq::<u8>::empty() =~= acc@);
                if path {
                    stop = i;
                    end = i;
                    break;
                } else {
                    stop = i;
                    end = i + 1;
                    break;
                }
            } else if path && (c == SPACE || c == COLON || c == PIPE) {
                assert(acc@ + Seq::<u8>::empty() =~= acc@);
                stop = i;
                    end = i;
                    break;
            } else if c == DOLLAR {
                let d = t[i + 1];
                if d == DOLLAR || d == SPACE || d == COLON {
                    acc.push(d);
                    proof {
                        lemma_prefix_assoc(acc0, seq![d], eval_string(t@, i + 2, path));
                        assert(acc0 + seq![d] =~= acc@);
                    }
                    i = i + 2;
                } else if d == CR && t[i + 2] == NL {
                    i = find_spaces_end(t, i + 3);
                } else if d == NL {
                    i = find_spaces_end(t, i + 2);
                } else if d == LBRACE {
                    let e = find_varname_end(t, i + 2);
                    if e > i + 2 && t[e] == RBRACE {
                        push_range(&mut acc, t, i + 2, e);
                        proof {
                            lemma_prefix_assoc(
                                acc0,
                                t@.subrange(i + 2, e as int),
                                eval_string(t@, e + 1, path),
                            );
                        }
                        i = e + 1;
                    } else {
                        return Err(
                            ParseError {
                                kind: ErrorKind::BadEscape,
                                loc: Location { start: i, stop: i + 1, source_id: id },
                            },
                        );
                    }
                } else if simple_varname_byte(d) {
                    let e = find_simple_varname_end(t, i + 1);
                    proof {
                        lemma_simple_varname_end(t@, i + 2);
                    }
                    push_range(&mut acc, t, i + 1, e);
                    proof {
                        lemma_prefix_assoc(
                            acc0,
                            t@.subrange(i + 1, e as int),
                            eval_string(t@, e as int, path),
                        );
                    }
                    i = e;
                } else {
                    return Err(
                        ParseError {
                            kind: ErrorKind::BadEscape,
                            loc: Location { start: i, stop: i + 1, source_id: id },
                        },
                    );
                }
            } else {
                acc.push(c);
                proof {
                    lemma_prefix_assoc(acc0, seq![c], eval_string(t@, i + 1, path));
                    assert(acc0 + seq![c] =~= acc@);
                }
                i = i + 1;
            }
        }
        self.offset = end;
        proof {
            lemma_skip_ws(t@, end as int);
        }
        if path {
            self.eat_whitespace();
        }
        Ok(L { elem: acc, loc: Location { start: p0, stop, source_id: id } })
    }

    /// Reads one path of a path list; an empty result means the list has ended.
    pub fn read_path(&mut self) -> (r: Result<L<Vec<u8>>, ParseError>)
        requires
            old(self).wf(),
        ensures
            old(self).same_text(final(self)),
            old(self).pos() <= final(self).pos(),
            r.is_err() ==> is_syntax_error(r.unwrap_err().kind),
            match eval_string(old(self).text(), old(self).pos(), true) {
                Ok((v, stop, end)) => r.is_ok() && r.unwrap().elem@ == v && r.unwrap().loc == (Location {
                    start: old(self).pos() as usize,
                    stop: stop as usize,
                    source_id: old(self).source(),
                }) && old(self).pos() <= stop <= end <= final(self).pos() && final(self).pos() < old(self).text().len() && (v.len() > 0 ==> old(self).pos() < stop) && final(self).pos() == skip_ws(old(self).text(), end),
                Err((kind, pos)) => r.is_err() && r.unwrap_err() == error_at(
                    kind,
                    pos,
                    old(self).source(),
                ),
            },
    {
        self.read_eval_string(true)
    }

    /// Reads the value of a binding, up to and including the end of its line.
    pub fn read_var_value(&mut self) -> (r: Result<L<Vec<u8>>, ParseError>)
        requires
            old(self).wf(),
        ensures
            old(self).same_text(final(self)),
            old(self).pos() <= final(self).pos(),
            r.is_err() ==> is_syntax_error(r.unwrap_err().kind),
            match eval_string(old(self).text(), old(self).pos(), false) {
                Ok((v, stop, end)) => r.is_ok() && r.unwrap().elem@ == v && r.unwrap().loc == (Location {
                    start: old(self).pos() as usize,
                    stop: stop as usize,
                    source_id: old(self).source(),
                }) && old(self).pos() <= stop <= end == final(self).pos() && end < old(self).text().len() && (v.len() > 0 ==> old(self).pos() < stop),
                Err((kind, pos)) => r.is_err() && r.unwrap_err() == error_at(
                    kind,
                    pos,
                    old(self).source(),
                ),
            },
    {
        self.read_eval_string(false)
    }

    /// Reads a name: an identifier, or the word `pool` used as one.
    pub fn read_ident(&mut self) -> (r: Result<Location, ParseError>)
        requires
            old(self).wf(),
        ensures
            old(self).same_text(final(self)),
            old(self).pos() <= final(self).pos(),
            r.is_err() ==> is_syntax_error(r.unwrap_err().kind),
            match next_token(old(self).text(), old(self).pos()) {
                Ok((k, s, e)) => if k == TokenKind::Ident || k == TokenKind::Pool {
                    r == Ok::<Location, ParseError>(token_of(k, s, e, old(self).source()).loc)
                        && final(self).pos() == token_after(old(self).text(), k, e) && old(self).pos()
                        <= s < e <= final(self).pos() && e < old(self).text().len()
                } else {
                    r == Err::<Location, ParseError>(
                        ParseError {
                            kind: ErrorKind::UnexpectedToken,
                            loc: token_of(k, s, e, old(self).source()).loc,
                        },
                    )
                },
                Err(pos) => r == Err::<Location, ParseError>(
                    error_at(ErrorKind::UnexpectedChar, pos, old(self).source()),
                ),
            },
    {
        let next = self.next()?;
        match next.kind {
            TokenKind::Ident | TokenKind::Pool => Ok(next.loc),
            _ => Err(ParseError { kind: ErrorKind::UnexpectedToken, loc: next.loc }),
        }
    }

    /// Skips spaces, then takes the rest of the line (newline excluded) as one token.
    pub fn until_eol(&mut self) -> (r: Token)
        requires
            old(self).wf(),
        ensures
            old(self).same_text(final(self)),
            old(self).pos() <= final(self).pos(),
            r == token_of(
                TokenKind::Ident,
                spaces_end(old(self).text(), old(self).pos()),
                line_end(old(self).text(), spaces_end(old(self).text(), old(self).pos())),
                old(self).source(),
            ),
            final(self).pos() == line_end(
                old(self).text(),
                spaces_end(old(self).text(), old(self).pos()),
            ),
    {
        if self.offset == self.text.len() {
            return Token {
                kind: TokenKind::Ident,
                loc: Location { start: self.offset, stop: self.offset, source_id: self.source_id },
            };
        }
        let start = find_spaces_end(self.text, self.offset);
        let stop = find_line_end(self.text, start);
        self.offset = stop;
        Token {
            kind: TokenKind::Ident,
            loc: Location { start, stop, source_id: self.source_id },
        }
    }

    /// The location from the start of `first` to the current position.
    pub fn loc_extend_to_last(&self, first: Location) -> (r: Location)
        ensures
            r == (Location { start: first.start, stop: self.pos() as usize, source_id: self.source() }),
    {
        Location { start: first.start, stop: self.offset, source_id: self.source_id }
    }
}


} // verus!
