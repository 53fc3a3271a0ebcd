//! The results of LALRPOP's analysis of a grammar that the server reads,
//! held as plain values.

use vstd::prelude::*;

use crate::text::str_eq;
use crate::types::Span;

verus! {

/// What a span of a grammar holds.
#[derive(Clone, Debug)]
pub enum SpanItem {
    /// The `grammar` declaration.
    Grammar,
    /// The definition of the named nonterminal.
    Definition(String),
    /// A reference to the named nonterminal (or to a macro parameter).
    Reference(String),
}

/// The declared signature of a nonterminal: its macro parameters and its type.
#[derive(Clone, Debug)]
pub struct TypeDecl {
    pub args: Vec<String>,
    pub ret: Option<String>,
}

/// Where LALRPOP locates an error, in lines separated by `\n` and byte columns.
#[derive(Clone, Copy, Debug)]
pub enum ErrorLoc {
    Point(usize, usize),
    Span { lo: (usize, usize), hi: (usize, usize) },
}

/// An error that LALRPOP reports for a grammar it cannot analyse.
#[derive(Clone, Debug)]
pub struct DiagnosticError {
    pub loc: ErrorLoc,
    pub message: String,
}

/// LALRPOP's analysis of a grammar: where each nonterminal is defined and
/// referenced, the declared signature of each, and what every span holds.
#[derive(Clone, Debug)]
pub struct GrammarAnalysis {
    pub definitions: Vec<(String, Span)>,
    pub references: Vec<(String, Vec<Span>)>,
    pub definition_type_decls: Vec<(String, TypeDecl)>,
    pub span_items: Vec<(Span, SpanItem)>,
}

impl GrammarAnalysis {
    /// Each table names a nonterminal at most once, as the maps that LALRPOP
    /// builds do.
    pub open spec fn wf(&self) -> bool {
        &&& distinct_names(self.definitions@)
        &&& distinct_names(self.references@)
        &&& distinct_names(self.definition_type_decls@)
    }

    /// Whether each table names a nonterminal at most once.
    pub fn is_well_formed(&self) -> (r: bool)
        ensures
            r == self.wf(),
    {
        has_distinct_names(&self.definitions) && has_distinct_names(&self.references)
            && has_distinct_names(&self.definition_type_decls)
    }
}

/// No two entries of `entries` have the same name.
pub open spec fn distinct_names<V>(entries: Seq<(String, V)>) -> bool {
    forall|i: int, j: int| 0 <= i < j < entries.len() ==> entries[i].0@ != entries[j].0@
}

/// Whether no two entries of `entries` have the same name.
pub fn has_distinct_names<V>(entries: &Vec<(String, V)>) -> (r: bool)
    ensures
        r == distinct_names(entries@),
{
    let mut i: usize = 0;
    while i < entries.len()
        invariant
            i <= entries@.len(),
            distinct_names(entries@.take(i as int)),
        decreases entries@.len() - i,
    {
        let mut j: usize = 0;
        while j < i
            invariant
                j <= i < entries@.len(),
                forall|a: int| 0 <= a < j ==> entries@[a].0@ != entries@[i as int].0@,
            decreases i - j,
        {
            if str_eq(entries[j].0.as_str(), entries[i].0.as_str()) {
                return false;
            }
            j = j + 1;
        }
        proof {
            let p = entries@.take(i as int);
            let q = entries@.take(i + 1);
            assert forall|a: int, b: int| 0 <= a < b < q.len() implies q[a].0@ != q[b].0@ by {
                if b < i {
                    assert(p[a].0@ != p[b].0@);
                }
            }
        }
        i = i + 1;
    }
    assert(entries@.take(entries@.len() as int) =~= entries@);
    true
}

/// `i` is the first entry of `entries` named `name`.
pub open spec fn is_first_named<V>(entries: Seq<(String, V)>, name: Seq<char>, i: int) -> bool {
    &&& 0 <= i < entries.len()
    &&& entries[i].0@ == name
    &&& forall|j: int| 0 <= j < i ==> entries[j].0@ != name
}

/// The value of the first entry of `entries` named `name`.
pub open spec fn lookup<V>(entries: Seq<(String, V)>, name: Seq<char>) -> Option<V> {
    if exists|i: int| is_first_named(entries, name, i) {
        Some(entries[choose|i: int| is_first_named(entries, name, i)].1)
    } else {
        None
    }
}

/// The index of the first entry of `entries` named `name`.
pub fn find_named<V>(entries: &Vec<(String, V)>, name: &str) -> (r: Option<usize>)
    ensures
        match r {
            Some(i) => is_first_named(entries@, name@, i as int) && lookup(entries@, name@) == Some(
                entries@[i as int].1,
            ),
            None => lookup(entries@, name@) is None && forall|j: int|
                0 <= j < entries@.len() ==> entries@[j].0@ != name@,
        },
{
    let mut i: usize = 0;
    while i < entries.len()
        invariant
            i <= entries@.len(),
            forall|j: int| 0 <= j < i ==> entries@[j].0@ != name@,
        decreases entries@.len() - i,
    {
        if str_eq(entries[i].0.as_str(), name) {
            proof {
                assert(is_first_named(entries@, name@, i as int));
                let k = choose|k: int| is_first_named(entries@, name@, k);
                assert(k == i);
            }
            return Some(i);
        }
        i = i + 1;
    }
    None
}

} // verus!
