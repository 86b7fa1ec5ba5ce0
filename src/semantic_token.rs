use vstd::prelude::*;
use ropey::Rope;
use crate::by_start::{sort_by_start, sorted_by_start};
use crate::semantic_analyze::Semantic;
use crate::span::Span;
use crate::symbol_table::{ReferenceView, SymbolKind, SymbolView};

verus! {

#[verifier::external_type_specification]
#[verifier::external_body]
pub struct ExRope(Rope);

/// The text a rope holds.
pub uninterp spec fn rope_text(r: Rope) -> Seq<char>;

/// The zero-based line of byte `byte` of `text`, or `None` past its end.
pub uninterp spec fn line_of_byte(text: Seq<char>, byte: usize) -> Option<usize>;

/// The byte at which line `line` of `text` starts, or `None` past its last line.
pub uninterp spec fn line_start_byte(text: Seq<char>, line: usize) -> Option<usize>;

/// Relies on `Rope::from_str`: the rope holds the text.
#[verifier::external_body]
fn rope_of(text: &str) -> (r: Rope)
    ensures
        rope_text(r) == text@,
{
    Rope::from_str(text)
}

/// Relies on `Rope::try_byte_to_line`: the line of a byte, an error past the end.
#[verifier::external_body]
fn byte_to_line(rope: &Rope, byte: usize) -> (r: Option<usize>)
    ensures
        r == line_of_byte(rope_text(*rope), byte),
{
    rope.try_byte_to_line(byte).ok()
}

/// Relies on `Rope::try_line_to_byte`: where a line starts, an error past the
/// last line.
#[verifier::external_body]
fn line_to_byte(rope: &Rope, line: usize) -> (r: Option<usize>)
    ensures
        r == line_start_byte(rope_text(*rope), line),
{
    rope.try_line_to_byte(line).ok()
}

/// Where a highlighted name stands: line, column, length in bytes, and kind.
#[derive(Clone, Copy, Debug, PartialEq, Eq, Structural)]
pub struct TokenPosition {
    pub line: usize,
    pub col: usize,
    pub length: usize,
    pub kind: SymbolKind,
}

/// One highlighted name, relative to the one before it: the line delta, the
/// column (absolute on a new line, else a delta), its length and kind.
#[derive(Clone, Copy, Debug, PartialEq, Eq, Structural)]
pub struct SemanticToken {
    pub delta_line: usize,
    pub delta_start: usize,
    pub length: usize,
    pub token_type: SymbolKind,
}

pub open spec fn in_range(start: usize, range: Option<Span>) -> bool {
    match range {
        Some(r) => r.start <= start < r.end,
        None => true,
    }
}

/// Each symbol's span whose start is in range, with the symbol's kind.
pub open spec fn symbol_tokens(syms: Seq<SymbolView>, range: Option<Span>) -> Seq<(usize, usize, SymbolKind)>
    decreases syms.len(),
{
    if syms.len() == 0 {
        Seq::empty()
    } else {
        let prev = symbol_tokens(syms.drop_last(), range);
        let s = syms.last();
        if in_range(s.span.start, range) {
            prev.push((s.span.start, s.span.end, s.kind))
        } else {
            prev
        }
    }
}

/// Each resolved use's span whose start is in range, with the kind of the
/// symbol it resolves to; unresolved uses give nothing.
pub open spec fn use_tokens(syms: Seq<SymbolView>, refs: Seq<ReferenceView>, range: Option<Span>) -> Seq<(usize, usize, SymbolKind)>
    decreases refs.len(),
{
    if refs.len() == 0 {
        Seq::empty()
    } else {
        let prev = use_tokens(syms, refs.drop_last(), range);
        let r = refs.last();
        match r.symbol_id {
            Some(id) => if id < syms.len() && in_range(r.span.start, range) {
                prev.push((r.span.start, r.span.end, syms[id as int].kind))
            } else {
                prev
            },
            None => prev,
        }
    }
}

/// The highlighted spans in ascending start order.
pub open spec fn raw_tokens(syms: Seq<SymbolView>, refs: Seq<ReferenceView>, range: Option<Span>) -> Seq<(usize, usize, SymbolKind)> {
    sorted_by_start(symbol_tokens(syms, range) + use_tokens(syms, refs, range))
}

pub open spec fn span_length(start: usize, end: usize) -> usize {
    if start <= end {
        (end - start) as usize
    } else {
        0
    }
}

pub open spec fn position_of(text: Seq<char>, t: (usize, usize, SymbolKind)) -> Option<TokenPosition> {
    match line_of_byte(text, t.0) {
        Some(line) => match line_start_byte(text, line) {
            Some(ls) => if ls <= t.0 {
                Some(TokenPosition { line, col: (t.0 - ls) as usize, length: span_length(t.0, t.1), kind: t.2 })
            } else {
                None
            },
            None => None,
        },
        None => None,
    }
}

/// The positions of the tokens, or `None` when one cannot be placed.
pub open spec fn positions_of(text: Seq<char>, ts: Seq<(usize, usize, SymbolKind)>) -> Option<Seq<TokenPosition>>
    decreases ts.len(),
{
    if ts.len() == 0 {
        Some(Seq::empty())
    } else {
        match positions_of(text, ts.drop_last()) {
            Some(prev) => match position_of(text, ts.last()) {
                Some(tp) => Some(prev.push(tp)),
                None => None,
            },
            None => None,
        }
    }
}

pub open spec fn not_before(a: TokenPosition, b: TokenPosition) -> bool {
    a.line < b.line || (a.line == b.line && a.col <= b.col)
}

/// Each position is at or after the one before it.
pub open spec fn positions_ascending(ps: Seq<TokenPosition>) -> bool {
    forall|i: int| 0 < i < ps.len() ==> #[trigger] not_before(ps[i - 1], ps[i])
}

pub open spec fn delta(prev_line: usize, prev_col: usize, p: TokenPosition) -> SemanticToken {
    if p.line == prev_line {
        SemanticToken { delta_line: 0, delta_start: (p.col - prev_col) as usize, length: p.length, token_type: p.kind }
    } else {
        SemanticToken { delta_line: (p.line - prev_line) as usize, delta_start: p.col, length: p.length, token_type: p.kind }
    }
}

/// The relative encoding: the first token relative to line 0, column 0, each
/// later one relative to the one before.
pub open spec fn encode(ps: Seq<TokenPosition>) -> Seq<SemanticToken>
    decreases ps.len(),
{
    if ps.len() == 0 {
        Seq::empty()
    } else if ps.len() == 1 {
        seq![delta(0, 0, ps[0])]
    } else {
        let prev = ps[ps.len() - 2];
        encode(ps.drop_last()).push(delta(prev.line, prev.col, ps.last()))
    }
}

/// The highlighting of a compiled text, or `None` when a span cannot be
/// placed in `text` or the spans are not in text order.
pub open spec fn tokens_of(syms: Seq<SymbolView>, refs: Seq<ReferenceView>, text: Seq<char>, range: Option<Span>) -> Option<Seq<SemanticToken>> {
    match positions_of(text, raw_tokens(syms, refs, range)) {
        Some(ps) => if positions_ascending(ps) {
            Some(encode(ps))
        } else {
            None
        },
        None => None,
    }
}

/// Encodes ascending positions relative to one another.
pub fn encode_tokens(positions: &Vec<TokenPosition>) -> (r: Vec<SemanticToken>)
    requires
        positions_ascending(positions@),
    ensures
        r@ == encode(positions@),
{
    let mut r: Vec<SemanticToken> = Vec::new();
    let mut prev_line: usize = 0;
    let mut prev_col: usize = 0;
    let mut i: usize = 0;
    while i < positions.len()
        invariant
            i <= positions.len(),
            positions_ascending(positions@),
            r@ == encode(positions@.take(i as int)),
            i == 0 ==> prev_line == 0 && prev_col == 0,
            i > 0 ==> prev_line == positions@[i - 1].line && prev_col == positions@[i - 1].col,
        decreases positions.len() - i,
    {
        let p = positions[i];
        proof {
            let t = positions@.take(i + 1);
            assert(t.drop_last() =~= positions@.take(i as int));
            assert(t.last() == p);
            if i > 0 {
                assert(t[t.len() - 2] == positions@[i - 1]);
                assert(not_before(positions@[i - 1], positions@[i as int]));
            }
        }
        let token = if p.line == prev_line {
            SemanticToken { delta_line: 0, delta_start: p.col - prev_col, length: p.length, token_type: p.kind }
        } else {
            SemanticToken { delta_line: p.line - prev_line, delta_start: p.col, length: p.length, token_type: p.kind }
        };
        r.push(token);
        prev_line = p.line;
        prev_col = p.col;
        i += 1;
    }
    assert(positions@.take(positions.len() as int) =~= positions@);
    r
}

fn collect_tokens(sem: &Semantic, range: Option<Span>) -> (r: Vec<(usize, usize, SymbolKind)>)
    ensures
        r@ == symbol_tokens(sem.table.syms(), range) + use_tokens(sem.table.syms(), sem.table.refs(), range),
{
    let table = &sem.table;
    let ghost syms = table.syms();
    let ghost refs = table.refs();
    let mut r: Vec<(usize, usize, SymbolKind)> = Vec::new();
    let mut i: usize = 0;
    while i < table.symbols.len()
        invariant
            i <= table.symbols.len(),
            syms == table.syms(),
            r@ == symbol_tokens(syms.take(i as int), range),
        decreases table.symbols.len() - i,
    {
        proof {
            assert(syms.take(i + 1).drop_last() =~= syms.take(i as int));
        }
        let span = table.symbols[i].span;
        let wanted = match range {
            Some(rg) => rg.start <= span.start && span.start < rg.end,
            None => true,
        };
        if wanted {
            r.push((span.start, span.end, table.symbols[i].kind));
        }
        i += 1;
    }
    assert(syms.take(table.symbols.len() as int) =~= syms);
    let ghost from_symbols = r@;
    let mut j: usize = 0;
    while j < table.references.len()
        invariant
            j <= table.references.len(),
            syms == table.syms(),
            refs == table.refs(),
            syms.len() == table.symbols.len(),
            r@ == from_symbols + use_tokens(syms, refs.take(j as int), range),
        decreases table.references.len() - j,
    {
        proof {
            assert(refs.take(j + 1).drop_last() =~= refs.take(j as int));
        }
        let span = table.references[j].span;
        match table.references[j].symbol_id {
            Some(id) => {
                let wanted = id < table.symbols.len() && match range {
                    Some(rg) => rg.start <= span.start && span.start < rg.end,
                    None => true,
                };
                if wanted {
                    let ghost before = r@;
                    r.push((span.start, span.end, table.symbols[id].kind));
                    assert(r@ =~= before.push((span.start, span.end, syms[id as int].kind)));
                }
            },
            None => {},
        }
        j += 1;
        assert(r@ =~= from_symbols + use_tokens(syms, refs.take(j as int), range));
    }
    assert(refs.take(table.references.len() as int) =~= refs);
    r
}

/// Once a token cannot be placed, no longer sequence can be.
proof fn lemma_positions_fail(text: Seq<char>, ts: Seq<(usize, usize, SymbolKind)>, k: int)
    requires
        0 <= k <= ts.len(),
        positions_of(text, ts.take(k)) is None,
    ensures
        positions_of(text, ts) is None,
    decreases ts.len() - k,
{
    if k < ts.len() {
        assert(ts.take(k + 1).drop_last() =~= ts.take(k));
        lemma_positions_fail(text, ts, k + 1);
    } else {
        assert(ts.take(k) =~= ts);
    }
}

fn place_tokens(rope: &Rope, ts: &Vec<(usize, usize, SymbolKind)>) -> (r: Option<Vec<TokenPosition>>)
    ensures
        r matches Some(ps) ==> positions_of(rope_text(*rope), ts@) == Some(ps@),
        r is None ==> positions_of(rope_text(*rope), ts@) is None,
{
    let ghost text = rope_text(*rope);
    let mut ps: Vec<TokenPosition> = Vec::new();
    let mut i: usize = 0;
    while i < ts.len()
        invariant
            i <= ts.len(),
            text == rope_text(*rope),
            positions_of(text, ts@.take(i as int)) == Some(ps@),
        decreases ts.len() - i,
    {
        let t = ts[i];
        proof {
            assert(ts@.take(i + 1).drop_last() =~= ts@.take(i as int));
            assert(ts@.take(i + 1).last() == t);
        }
        let placed = match byte_to_line(rope, t.0) {
            Some(line) => match line_to_byte(rope, line) {
                Some(ls) => if ls <= t.0 {
                    let length = if t.0 <= t.1 { t.1 - t.0 } else { 0 };
                    Some(TokenPosition { line, col: t.0 - ls, length, kind: t.2 })
                } else {
                    None
                },
                None => None,
            },
            None => None,
        };
        match placed {
            Some(tp) => {
                ps.push(tp);
            },
            None => {
                proof {
                    lemma_positions_fail(text, ts@, i + 1);
                }
                return None;
            },
        }
        i += 1;
    }
    assert(ts@.take(ts.len() as int) =~= ts@);
    Some(ps)
}

fn ascending(ps: &Vec<TokenPosition>) -> (r: bool)
    ensures
        r == positions_ascending(ps@),
{
    let mut i: usize = 1;
    while i < ps.len()
        invariant
            1 <= i,
            forall|k: int| 0 < k < i && k < ps@.len() ==> #[trigger] not_before(ps@[k - 1], ps@[k]),
        decreases ps.len() - i,
    {
        let a = ps[i - 1];
        let b = ps[i];
        if !(a.line < b.line || (a.line == b.line && a.col <= b.col)) {
            assert(!not_before(ps@[i - 1], ps@[i as int]));
            return false;
        }
        i += 1;
    }
    true
}

/// The highlighting of `text`, compiled into `sem`: every symbol span and
/// every resolved use, those starting in `range` when one is given, in
/// ascending start order and encoded relative to one another. `None` when a
/// span cannot be placed in `text` or the placed spans are out of order.
pub fn semantic_tokens(sem: &Semantic, text: &str, range: Option<Span>) -> (r: Option<Vec<SemanticToken>>)
    ensures
        r matches Some(ts) ==> tokens_of(sem.table.syms(), sem.table.refs(), text@, range) == Some(ts@),
        r is None ==> tokens_of(sem.table.syms(), sem.table.refs(), text@, range) is None,
{
    let raw = collect_tokens(sem, range);
    let sorted = sort_by_start(&raw);
    let rope = rope_of(text);
    match place_tokens(&rope, &sorted) {
        Some(ps) => if ascending(&ps) {
            Some(encode_tokens(&ps))
        } else {
            None
        },
        None => None,
    }
}

/// With no edit in between, two highlightings of one compiled text are the
/// same token for token.
pub proof fn lemma_semantic_tokens_deterministic(
    sem: Semantic,
    text: Seq<char>,
    range: Option<Span>,
    first: Seq<SemanticToken>,
    second: Seq<SemanticToken>,
)
    requires
        tokens_of(sem.table.syms(), sem.table.refs(), text, range) == Some(first),
        tokens_of(sem.table.syms(), sem.table.refs(), text, range) == Some(second),
    ensures
        first == second,
{
}

/// The zero-based line and column of byte `byte` of `text`, or `None` when
/// it cannot be placed.
pub open spec fn position_at(text: Seq<char>, byte: usize) -> Option<(usize, usize)> {
    match line_of_byte(text, byte) {
        Some(line) => match line_start_byte(text, line) {
            Some(ls) => if ls <= byte {
                Some((line, (byte - ls) as usize))
            } else {
                None
            },
            None => None,
        },
        None => None,
    }
}

fn position_in(rope: &Rope, byte: usize) -> (r: Option<(usize, usize)>)
    ensures
        r == position_at(rope_text(*rope), byte),
{
    match byte_to_line(rope, byte) {
        Some(line) => match line_to_byte(rope, line) {
            Some(ls) => if ls <= byte {
                Some((line, byte - ls))
            } else {
                None
            },
            None => None,
        },
        None => None,
    }
}

/// Where byte `offset` of `text` stands, as a line and a column.
pub fn offset_to_position(text: &str, offset: usize) -> (r: Option<(usize, usize)>)
    ensures
        r == position_at(text@, offset),
{
    let rope = rope_of(text);
    position_in(&rope, offset)
}

/// Where a span of `text` starts and ends, as lines and columns; `None`
/// when either end cannot be placed.
pub fn span_to_range(text: &str, span: Span) -> (r: Option<((usize, usize), (usize, usize))>)
    ensures
        r == match (position_at(text@, span.start), position_at(text@, span.end)) {
            (Some(a), Some(b)) => Some((a, b)),
            _ => None,
        },
{
    let rope = rope_of(text);
    match (position_in(&rope, span.start), position_in(&rope, span.end)) {
        (Some(a), Some(b)) => Some((a, b)),
        _ => None,
    }
}

} // verus!
