use vstd::prelude::*;
use crate::span::Span;
use crate::semantic_analyze::Type;
use std::collections::HashSet;

verus! {

broadcast use vstd::std_specs::hash::group_hash_axioms;

/// Arena index of a symbol.
pub type SymbolId = usize;

/// Arena index of a reference.
pub type ReferenceId = usize;

#[derive(Clone, Copy, Debug, PartialEq, Eq, Hash, Structural)]
pub enum SymbolKind {
    Function,
    Variable,
    Parameter,
    Struct,
    Field,
}

/// A binding site: a function, parameter, let-bound variable, struct or field.
pub struct Symbol {
    pub name: String,
    pub span: Span,
    pub kind: SymbolKind,
    pub ty: Type,
}

/// A use of a name, resolved to a symbol or left unresolved (`None`).
pub struct Reference {
    pub name: String,
    pub span: Span,
    pub symbol_id: Option<SymbolId>,
}

/// What a symbol is, as a mathematical value.
pub ghost struct SymbolView {
    pub name: Seq<char>,
    pub span: Span,
    pub kind: SymbolKind,
    pub ty: Type,
}

/// What a reference is, as a mathematical value.
pub ghost struct ReferenceView {
    pub name: Seq<char>,
    pub span: Span,
    pub symbol_id: Option<SymbolId>,
}

impl View for Symbol {
    type V = SymbolView;

    open spec fn view(&self) -> SymbolView {
        SymbolView { name: self.name@, span: self.span, kind: self.kind, ty: self.ty }
    }
}

impl View for Reference {
    type V = ReferenceView;

    open spec fn view(&self) -> ReferenceView {
        ReferenceView { name: self.name@, span: self.span, symbol_id: self.symbol_id }
    }
}

/// Raised when a span would denote two entities; it aborts an analysis.
#[derive(Clone, Copy, Debug, PartialEq, Eq, Structural)]
pub enum ConsistencyError {
    DuplicateSpan(Span),
    ArenaFull,
}

/// Symbols and references of one compiled program, with the backlinks from
/// each symbol to the references that resolve to it.
pub struct SymbolTable {
    pub symbols: Vec<Symbol>,
    pub references: Vec<Reference>,
    pub backlinks: Vec<Vec<ReferenceId>>,
    /// The key of every span in use, for constant-time duplicate checks.
    pub taken: HashSet<u128>,
}

/// A span as one number: the start in the high 64 bits, the end in the low.
pub open spec fn span_key(span: Span) -> u128 {
    (span.start as int * 0x1_0000_0000_0000_0000 + span.end as int) as u128
}

proof fn lemma_span_key_injective(a: Span, b: Span)
    requires
        span_key(a) == span_key(b),
    ensures
        a == b,
{
    let m: int = 0x1_0000_0000_0000_0000;
    assert(a.start as int * m + a.end as int <= (m - 1) * m + (m - 1)) by (nonlinear_arith)
        requires a.start < m, a.end < m;
    assert(b.start as int * m + b.end as int <= (m - 1) * m + (m - 1)) by (nonlinear_arith)
        requires b.start < m, b.end < m;
    let ka = a.start as int * m + a.end as int;
    let kb = b.start as int * m + b.end as int;
    assert(ka == kb);
    assert(a.start == b.start) by (nonlinear_arith)
        requires ka == kb, ka == a.start * m + a.end, kb == b.start * m + b.end, 0 <= a.end < m, 0 <= b.end < m,
            0 <= a.start, 0 <= b.start, m > 0;
}

/// The keys of every span of the two arenas.
pub open spec fn span_keys(symbols: Seq<SymbolView>, refs: Seq<ReferenceView>) -> Set<u128> {
    Set::new(|k: u128| exists|s: Span| #[trigger] span_key(s) == k && span_taken(symbols, refs, s))
}

fn key_of(span: Span) -> (r: u128)
    ensures
        r == span_key(span),
{
    let m: u128 = 0x1_0000_0000_0000_0000;
    proof {
        assert(span.start as int * m + span.end as int <= (m - 1) * m + (m - 1)) by (nonlinear_arith)
            requires span.start < m, span.end < m;
    }
    (span.start as u128) * m + (span.end as u128)
}

/// The indices of the references in `refs` that resolve to `s`, ascending.
pub open spec fn uses_of(refs: Seq<ReferenceView>, s: SymbolId) -> Seq<ReferenceId>
    decreases refs.len(),
{
    if refs.len() == 0 {
        Seq::empty()
    } else if refs.last().symbol_id == Some(s) {
        uses_of(refs.drop_last(), s).push((refs.len() - 1) as ReferenceId)
    } else {
        uses_of(refs.drop_last(), s)
    }
}

/// Whether some symbol or reference of the two arenas occupies `span`.
pub open spec fn span_taken(symbols: Seq<SymbolView>, refs: Seq<ReferenceView>, span: Span) -> bool {
    (exists|i: int| 0 <= i < symbols.len() && #[trigger] symbols[i].span == span)
    || (exists|j: int| 0 <= j < refs.len() && #[trigger] refs[j].span == span)
}

impl SymbolTable {
    pub open spec fn syms(&self) -> Seq<SymbolView> {
        self.symbols@.map_values(|s: Symbol| s@)
    }

    pub open spec fn refs(&self) -> Seq<ReferenceView> {
        self.references@.map_values(|r: Reference| r@)
    }

    /// The key set holds exactly the keys of the spans in use.
    pub closed spec fn keys_tracked(&self) -> bool {
        self.taken@ == span_keys(self.syms(), self.refs())
    }

    /// The table's invariant: references resolve into the symbol arena, the
    /// backlinks are exactly the inverse of the resolutions, and no span
    /// denotes two entities.
    pub open spec fn wf(&self) -> bool {
        &&& self.keys_tracked()
        &&& self.backlinks.len() == self.symbols.len()
        &&& forall|j: int| 0 <= j < self.references.len()
                ==> match #[trigger] self.refs()[j].symbol_id {
                    Some(s) => s < self.symbols.len(),
                    None => true,
                }
        &&& forall|s: int| 0 <= s < self.symbols.len()
                ==> #[trigger] self.backlinks[s]@ == uses_of(self.refs(), s as SymbolId)
        &&& forall|i: int, k: int| 0 <= i < k < self.symbols.len()
                ==> #[trigger] self.syms()[i].span != #[trigger] self.syms()[k].span
        &&& forall|j: int, k: int| 0 <= j < k < self.references.len()
                ==> #[trigger] self.refs()[j].span != #[trigger] self.refs()[k].span
        &&& forall|i: int, j: int| 0 <= i < self.symbols.len() && 0 <= j < self.references.len()
                ==> #[trigger] self.syms()[i].span != #[trigger] self.refs()[j].span
    }

    pub fn new() -> (r: SymbolTable)
        ensures
            r.wf(),
            r.symbols@.len() == 0,
            r.references@.len() == 0,
    {
        let r = SymbolTable {
            symbols: Vec::new(),
            references: Vec::new(),
            backlinks: Vec::new(),
            taken: HashSet::new(),
        };
        assert(r.taken@ =~= span_keys(r.syms(), r.refs()));
        r
    }

    /// Whether a symbol or a reference already occupies `span`.
    pub fn is_span_taken(&self, span: Span) -> (r: bool)
        requires
            self.wf(),
        ensures
            r == span_taken(self.syms(), self.refs(), span),
    {
        let r = self.taken.contains(&key_of(span));
        proof {
            if r {
                let s = choose|s: Span| #[trigger] span_key(s) == span_key(span) && span_taken(self.syms(), self.refs(), s);
                lemma_span_key_injective(s, span);
            }
        }
        r
    }

    /// Registers a binding at `span`; fails when the span is already taken.
    pub fn add_symbol(&mut self, span: Span, name: String, kind: SymbolKind, ty: Type) -> (r: Result<
        SymbolId,
        ConsistencyError,
    >)
        requires
            old(self).wf(),
        ensures
            final(self).wf(),
            span_taken(old(self).syms(), old(self).refs(), span) ==> {
                &&& r == Err::<SymbolId, ConsistencyError>(ConsistencyError::DuplicateSpan(span))
                &&& final(self).syms() == old(self).syms()
                &&& final(self).refs() == old(self).refs()
            },
            !span_taken(old(self).syms(), old(self).refs(), span) && old(self).symbols.len()
                == usize::MAX ==> {
                &&& r == Err::<SymbolId, ConsistencyError>(ConsistencyError::ArenaFull)
                &&& final(self).syms() == old(self).syms()
                &&& final(self).refs() == old(self).refs()
            },
            !span_taken(old(self).syms(), old(self).refs(), span) && old(self).symbols.len()
                < usize::MAX ==> {
                &&& r == Ok::<SymbolId, ConsistencyError>(old(self).symbols.len())
                &&& final(self).syms() == old(self).syms().push(
                    SymbolView { name: name@, span, kind, ty },
                )
                &&& final(self).refs() == old(self).refs()
            },
    {
        if self.is_span_taken(span) {
            return Err(ConsistencyError::DuplicateSpan(span));
        }
        if self.symbols.len() == usize::MAX {
            return Err(ConsistencyError::ArenaFull);
        }
        let id = self.symbols.len();
        let ghost view = SymbolView { name: name@, span, kind, ty };
        self.symbols.push(Symbol { name, span, kind, ty });
        self.backlinks.push(Vec::new());
        self.taken.insert(key_of(span));
        assert(self.syms() =~= old(self).syms().push(view));
        proof {
            self.lemma_keys_after_add(old(self).syms(), old(self).refs(), old(self).taken@, span);
        }
        assert(uses_of(self.refs(), id) =~= Seq::<ReferenceId>::empty()) by {
            lemma_no_uses_beyond(self.refs(), id);
        }
        Ok(id)
    }

    /// Registers a use of a name at `span`, resolved to `symbol_id` or not, and
    /// records its backlink; fails when the span is already taken.
    pub fn add_reference(&mut self, span: Span, name: String, symbol_id: Option<SymbolId>) -> (r: Result<
        ReferenceId,
        ConsistencyError,
    >)
        requires
            old(self).wf(),
            match symbol_id {
                Some(s) => s < old(self).symbols.len(),
                None => true,
            },
        ensures
            final(self).wf(),
            span_taken(old(self).syms(), old(self).refs(), span) ==> {
                &&& r == Err::<ReferenceId, ConsistencyError>(ConsistencyError::DuplicateSpan(span))
                &&& final(self).syms() == old(self).syms()
                &&& final(self).refs() == old(self).refs()
            },
            !span_taken(old(self).syms(), old(self).refs(), span) && old(self).references.len()
                == usize::MAX ==> {
                &&& r == Err::<ReferenceId, ConsistencyError>(ConsistencyError::ArenaFull)
                &&& final(self).syms() == old(self).syms()
                &&& final(self).refs() == old(self).refs()
            },
            !span_taken(old(self).syms(), old(self).refs(), span) && old(self).references.len()
                < usize::MAX ==> {
                &&& r == Ok::<ReferenceId, ConsistencyError>(old(self).references.len())
                &&& final(self).syms() == old(self).syms()
                &&& final(self).refs() == old(self).refs().push(
                    ReferenceView { name: name@, span, symbol_id },
                )
            },
    {
        if self.is_span_taken(span) {
            return Err(ConsistencyError::DuplicateSpan(span));
        }
        if self.references.len() == usize::MAX {
            return Err(ConsistencyError::ArenaFull);
        }
        let id = self.references.len();
        let ghost view = ReferenceView { name: name@, span, symbol_id };
        self.references.push(Reference { name, span, symbol_id });
        self.taken.insert(key_of(span));
        assert(self.refs() =~= old(self).refs().push(view));
        proof {
            self.lemma_keys_after_add(old(self).syms(), old(self).refs(), old(self).taken@, span);
        }
        assert(self.refs().drop_last() =~= old(self).refs());
        match symbol_id {
            Some(s) => {
                let mut uses = Vec::new();
                std::mem::swap(&mut uses, &mut self.backlinks[s]);
                uses.push(id);
                std::mem::swap(&mut uses, &mut self.backlinks[s]);
            },
            None => {},
        }
        Ok(id)
    }

    /// After one entity is added at `span`, the key set with its key inserted
    /// tracks the arenas again.
    proof fn lemma_keys_after_add(&self, syms: Seq<SymbolView>, refs: Seq<ReferenceView>, before: Set<u128>, span: Span)
        requires
            before == span_keys(syms, refs),
            self.taken@ == before.insert(span_key(span)),
            (self.syms() == syms.push(self.syms().last()) && self.refs() == refs && self.syms().last().span == span)
                || (self.refs() == refs.push(self.refs().last()) && self.syms() == syms && self.refs().last().span == span),
        ensures
            self.keys_tracked(),
    {
        let now = span_keys(self.syms(), self.refs());
        assert forall|k: u128| #[trigger] now.contains(k) == self.taken@.contains(k) by {
            if now.contains(k) {
                let s = choose|s: Span| #[trigger] span_key(s) == k && span_taken(self.syms(), self.refs(), s);
                if s != span {
                    if exists|i: int| 0 <= i < self.syms().len() && #[trigger] self.syms()[i].span == s {
                        let i = choose|i: int| 0 <= i < self.syms().len() && #[trigger] self.syms()[i].span == s;
                        if i < syms.len() {
                            assert(syms[i].span == s);
                        }
                    } else {
                        let j = choose|j: int| 0 <= j < self.refs().len() && #[trigger] self.refs()[j].span == s;
                        if j < refs.len() {
                            assert(refs[j].span == s);
                        }
                    }
                    assert(span_taken(syms, refs, s));
                    assert(before.contains(k));
                }
            }
            if self.taken@.contains(k) {
                if k == span_key(span) {
                    if self.syms().len() > syms.len() {
                        assert(self.syms()[self.syms().len() - 1].span == span);
                    } else {
                        assert(self.refs()[self.refs().len() - 1].span == span);
                    }
                    assert(span_taken(self.syms(), self.refs(), span));
                } else {
                    assert(before.contains(k));
                    let s = choose|s: Span| #[trigger] span_key(s) == k && span_taken(syms, refs, s);
                    if exists|i: int| 0 <= i < syms.len() && #[trigger] syms[i].span == s {
                        let i = choose|i: int| 0 <= i < syms.len() && #[trigger] syms[i].span == s;
                        assert(self.syms()[i].span == s);
                    } else {
                        let j = choose|j: int| 0 <= j < refs.len() && #[trigger] refs[j].span == s;
                        assert(self.refs()[j].span == s);
                    }
                    assert(span_taken(self.syms(), self.refs(), s));
                }
            }
        }
        assert(now =~= self.taken@);
    }

    /// The references that resolve to `id`, in the order they were added;
    /// empty when it has none or is no symbol.
    pub fn references_of(&self, id: SymbolId) -> (r: Vec<ReferenceId>)
        requires
            self.wf(),
        ensures
            r@ == uses_of(self.refs(), id),
    {
        if id >= self.backlinks.len() {
            proof {
                lemma_no_uses_beyond(self.refs(), id);
            }
            return Vec::new();
        }
        let uses = &self.backlinks[id];
        let mut r: Vec<ReferenceId> = Vec::new();
        let mut k: usize = 0;
        while k < uses.len()
            invariant
                k <= uses.len(),
                r@ == uses@.take(k as int),
            decreases uses.len() - k,
        {
            r.push(uses[k]);
            k += 1;
            assert(r@ =~= uses@.take(k as int));
        }
        assert(uses@.take(uses.len() as int) =~= uses@);
        r
    }
}

/// A symbol id that no reference names has no uses.
pub proof fn lemma_no_uses_beyond(refs: Seq<ReferenceView>, s: SymbolId)
    requires
        forall|j: int| 0 <= j < refs.len() ==> (#[trigger] refs[j]).symbol_id != Some(s),
    ensures
        uses_of(refs, s) == Seq::<ReferenceId>::empty(),
    decreases refs.len(),
{
    if refs.len() > 0 {
        lemma_no_uses_beyond(refs.drop_last(), s);
    }
}

} // verus!
