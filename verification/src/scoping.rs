//! The facts of the semantic model that the analysis reads: the scope tree,
//! where each symbol is declared, which references resolve to it, and where
//! each reference sits.
use crate::arena::edge_list_limit;
use vstd::prelude::*;

verus! {

/// The most symbols, and the most scopes, a program may have for the
/// analysis: its worklist and tables stay within what an arena vector holds.
pub open spec fn id_space_limit() -> int {
    0x1000_0000
}

/// The scope tree and symbol table of a program, as plain indices. Scope `0`
/// is the program's root scope.
pub struct ScopingFacts {
    /// The parent of each scope; `None` for the root.
    pub scope_parents: Vec<Option<usize>>,
    /// The `ScopeFlags` bits of each scope.
    pub scope_flags: Vec<u16>,
    /// The scope that declares each symbol.
    pub symbol_scopes: Vec<usize>,
    /// The references resolved to each symbol.
    pub resolved_references: Vec<Vec<usize>>,
    /// The scope each reference sits in.
    pub reference_scopes: Vec<usize>,
    /// The symbol each reference resolves to, if any.
    pub reference_symbols: Vec<Option<usize>>,
    /// The `ReferenceFlags` bits of each reference.
    pub reference_flags: Vec<u8>,
}

/// The number of references resolved to the symbols below `count`.
pub open spec fn resolved_total(lists: Seq<Vec<usize>>, count: int) -> int
    decreases count,
{
    if count <= 0 || lists.len() == 0 {
        0
    } else if count > lists.len() {
        resolved_total(lists, lists.len() as int)
    } else {
        resolved_total(lists, count - 1) + lists[count - 1]@.len()
    }
}

/// More symbols never have fewer resolved references.
pub proof fn lemma_resolved_total_monotone(lists: Seq<Vec<usize>>, a: int, b: int)
    requires
        0 <= a <= b,
    ensures
        resolved_total(lists, a) <= resolved_total(lists, b),
    decreases b,
{
    if a < b {
        if b > lists.len() {
            if lists.len() > 0 && a <= lists.len() {
                lemma_resolved_total_monotone(lists, a, lists.len() as int);
            }
        } else {
            lemma_resolved_total_monotone(lists, a, b - 1);
        }
    }
}

/// Counting the symbol `s` adds its references to the total.
pub proof fn lemma_resolved_total_step(lists: Seq<Vec<usize>>, s: int)
    requires
        0 <= s < lists.len(),
    ensures
        resolved_total(lists, s + 1) == resolved_total(lists, s) + lists[s]@.len(),
{
}

impl ScopingFacts {
    /// The number of scopes.
    pub open spec fn scope_count(&self) -> nat {
        self.scope_parents@.len()
    }

    /// The number of symbols.
    pub open spec fn symbol_count(&self) -> nat {
        self.symbol_scopes@.len()
    }

    /// The number of references.
    pub open spec fn reference_count(&self) -> nat {
        self.reference_scopes@.len()
    }

    /// The references resolved to `symbol`.
    pub open spec fn references_of(&self, symbol: usize) -> Seq<usize> {
        self.resolved_references@[symbol as int]@
    }

    /// No reference resolves to `symbol`.
    pub open spec fn is_unused(&self, symbol: usize) -> bool {
        self.references_of(symbol).len() == 0
    }

    /// The facts index one another consistently and fit the analysis's limits.
    pub open spec fn wf(&self) -> bool {
        &&& 1 <= self.scope_count() < id_space_limit()
        &&& self.scope_flags@.len() == self.scope_count()
        &&& forall|s: int| #![trigger self.scope_parents@[s]]
            0 <= s < self.scope_count() && self.scope_parents@[s] is Some
                ==> self.scope_parents@[s].unwrap() < self.scope_count()
        &&& self.symbol_count() < id_space_limit()
        &&& self.resolved_references@.len() == self.symbol_count()
        &&& forall|s: int| #![trigger self.symbol_scopes@[s]]
            0 <= s < self.symbol_count() ==> self.symbol_scopes@[s] < self.scope_count()
        &&& forall|s: int, i: int| #![trigger self.resolved_references@[s]@[i]]
            0 <= s < self.symbol_count() && 0 <= i < self.resolved_references@[s]@.len()
                ==> self.resolved_references@[s]@[i] < self.reference_count()
        // reference ids run up to `u32::MAX - 1`
        &&& self.reference_count() <= 0xFFFF_FFFF
        &&& self.reference_symbols@.len() == self.reference_count()
        &&& self.reference_flags@.len() == self.reference_count()
        &&& forall|r: int| #![trigger self.reference_scopes@[r]]
            0 <= r < self.reference_count() ==> self.reference_scopes@[r] < self.scope_count()
        &&& forall|r: int| #![trigger self.reference_symbols@[r]]
            0 <= r < self.reference_count() && self.reference_symbols@[r] is Some
                ==> self.reference_symbols@[r].unwrap() < self.symbol_count()
        &&& resolved_total(self.resolved_references@, self.symbol_count() as int) < edge_list_limit()
    }

    /// The number of symbols (`Scoping::symbols_len`).
    pub fn symbols_len(&self) -> (len: usize)
        ensures
            len == self.symbol_count(),
    {
        self.symbol_scopes.len()
    }

    /// The number of scopes (`Scoping::scopes_len`).
    pub fn scopes_len(&self) -> (len: usize)
        ensures
            len == self.scope_count(),
    {
        self.scope_parents.len()
    }

    /// The root scope of the program (`Scoping::root_scope_id`).
    pub fn root_scope_id(&self) -> (root: usize)
        ensures
            root == 0,
    {
        0
    }

    /// The scope that declares `symbol` (`Scoping::symbol_scope_id`).
    pub fn symbol_scope_id(&self, symbol: usize) -> (scope: usize)
        requires
            symbol < self.symbol_count(),
        ensures
            scope == self.symbol_scopes@[symbol as int],
    {
        self.symbol_scopes[symbol]
    }

    /// The flag bits of `scope` (`Scoping::scope_flags`).
    pub fn scope_flags(&self, scope: usize) -> (bits: u16)
        requires
            scope < self.scope_flags@.len(),
        ensures
            bits == self.scope_flags@[scope as int],
    {
        self.scope_flags[scope]
    }

    /// The flag bits of the root scope (`Scoping::root_scope_flags`).
    pub fn root_scope_flags(&self) -> (bits: u16)
        requires
            self.wf(),
        ensures
            bits == self.scope_flags@[0],
    {
        self.scope_flags[0]
    }

    /// The parent of `scope` (`Scoping::scope_parent_id`).
    pub fn scope_parent_id(&self, scope: usize) -> (parent: Option<usize>)
        requires
            scope < self.scope_count(),
        ensures
            parent == self.scope_parents@[scope as int],
    {
        self.scope_parents[scope]
    }

    /// The references resolved to `symbol` (`Scoping::get_resolved_reference_ids`).
    pub fn get_resolved_reference_ids(&self, symbol: usize) -> (refs: &Vec<usize>)
        requires
            symbol < self.resolved_references@.len(),
        ensures
            refs@ == self.references_of(symbol),
    {
        &self.resolved_references[symbol]
    }

    /// Whether no reference resolves to `symbol` (`Scoping::symbol_is_unused`).
    pub fn symbol_is_unused(&self, symbol: usize) -> (unused: bool)
        requires
            symbol < self.resolved_references@.len(),
        ensures
            unused == self.is_unused(symbol),
    {
        self.resolved_references[symbol].len() == 0
    }

    /// The scope `reference` sits in (`Reference::scope_id`).
    pub fn reference_scope_id(&self, reference: usize) -> (scope: usize)
        requires
            reference < self.reference_count(),
        ensures
            scope == self.reference_scopes@[reference as int],
    {
        self.reference_scopes[reference]
    }

    /// The symbol `reference` resolves to (`Reference::symbol_id`).
    pub fn reference_symbol_id(&self, reference: usize) -> (symbol: Option<usize>)
        requires
            reference < self.reference_symbols@.len(),
        ensures
            symbol == self.reference_symbols@[reference as int],
    {
        self.reference_symbols[reference]
    }

    /// The flag bits of `reference` (`Reference::flags`).
    pub fn reference_flags(&self, reference: usize) -> (bits: u8)
        requires
            reference < self.reference_flags@.len(),
        ensures
            bits == self.reference_flags@[reference as int],
    {
        self.reference_flags[reference]
    }

    /// Whether the facts are well formed (`wf`): a caller outside Verus tests
    /// this before handing them to the analysis.
    pub fn check_well_formed(&self) -> (ok: bool)
        ensures
            ok == self.wf(),
    {
        let scopes = self.scope_parents.len();
        let symbols = self.symbol_scopes.len();
        let references = self.reference_scopes.len();
        if scopes < 1 || scopes >= 0x1000_0000 || self.scope_flags.len() != scopes || symbols >= 0x1000_0000
            || self.resolved_references.len() != symbols || references > 0xFFFF_FFFF
            || self.reference_symbols.len() != references || self.reference_flags.len() != references {
            return false;
        }
        let mut s: usize = 0;
        while s < scopes
            invariant
                scopes == self.scope_count(),
                s <= scopes,
                forall|k: int| #![trigger self.scope_parents@[k]]
                    0 <= k < s && self.scope_parents@[k] is Some ==> self.scope_parents@[k].unwrap() < scopes,
            decreases scopes - s,
        {
            match self.scope_parents[s] {
                Some(parent) => {
                    if parent >= scopes {
                        return false;
                    }
                },
                None => {},
            }
            s = s + 1;
        }
        let mut total: usize = 0;
        let mut s: usize = 0;
        while s < symbols
            invariant
                scopes == self.scope_count(),
                symbols == self.symbol_count(),
                references == self.reference_count(),
                self.resolved_references@.len() == symbols,
                s <= symbols,
                total == resolved_total(self.resolved_references@, s as int),
                total < edge_list_limit(),
                forall|k: int| #![trigger self.symbol_scopes@[k]] 0 <= k < s ==> self.symbol_scopes@[k] < scopes,
                forall|k: int, i: int| #![trigger self.resolved_references@[k]@[i]]
                    0 <= k < s && 0 <= i < self.resolved_references@[k]@.len()
                        ==> self.resolved_references@[k]@[i] < references,
            decreases symbols - s,
        {
            if self.symbol_scopes[s] >= scopes {
                return false;
            }
            let refs = &self.resolved_references[s];
            let mut i: usize = 0;
            while i < refs.len()
                invariant
                    s < symbols,
                    symbols == self.symbol_count(),
                    self.resolved_references@.len() == symbols,
                    refs@ == self.resolved_references@[s as int]@,
                    i <= refs@.len(),
                    references == self.reference_count(),
                    forall|j: int| 0 <= j < i ==> #[trigger] refs@[j] < references,
                decreases refs@.len() - i,
            {
                if refs[i] >= references {
                    assert(self.resolved_references@[s as int]@[i as int] >= references);
                    return false;
                }
                i = i + 1;
            }
            proof {
                lemma_resolved_total_step(self.resolved_references@, s as int);
            }
            if refs.len() >= 0x800_0000 - total {
                proof {
                    lemma_resolved_total_monotone(self.resolved_references@, s + 1, symbols as int);
                }
                return false;
            }
            total = total + refs.len();
            s = s + 1;
        }
        let mut r: usize = 0;
        while r < references
            invariant
                scopes == self.scope_count(),
                symbols == self.symbol_count(),
                references == self.reference_count(),
                self.reference_symbols@.len() == references,
                r <= references,
                forall|k: int| #![trigger self.reference_scopes@[k]] 0 <= k < r ==> self.reference_scopes@[k] < scopes,
                forall|k: int| #![trigger self.reference_symbols@[k]]
                    0 <= k < r && self.reference_symbols@[k] is Some ==> self.reference_symbols@[k].unwrap() < symbols,
            decreases references - r,
        {
            if self.reference_scopes[r] >= scopes {
                return false;
            }
            match self.reference_symbols[r] {
                Some(symbol) => {
                    if symbol >= symbols {
                        return false;
                    }
                },
                None => {},
            }
            r = r + 1;
        }
        true
    }
}

} // verus!
