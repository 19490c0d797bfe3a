//! Synchronisation of link perspectives as a chain of diffs.
//!
//! Every commit stores a [`PerspectiveDiff`] under a fresh revision number,
//! pointing at its parent revisions.  Pulling compares the local revision with
//! the latest one: a local revision that is an ancestor of the latest is
//! fast-forwarded, a local revision on a fork is merged.

use vstd::prelude::*;

pub mod chain;
pub mod graph;
pub mod search;
pub mod hashing;
pub mod utils;
pub mod paths;
pub mod methods;

verus! {

/// A link between an optional source, predicate and target.
#[derive(Debug, Clone, PartialEq, Eq, Hash)]
pub struct Link {
    pub source: Option<String>,
    pub predicate: Option<String>,
    pub target: Option<String>,
}

impl Default for Link {
    fn default() -> (r: Self)
        ensures
            r.source is None,
            r.predicate is None,
            r.target is None,
    {
        Link { source: None, predicate: None, target: None }
    }
}

/// The signature and key that prove who authored an expression.
#[derive(Debug, Clone, PartialEq, Eq, Hash)]
pub struct ExpressionProof {
    pub signature: String,
    pub key: String,
}

impl Default for ExpressionProof {
    fn default() -> (r: Self)
        ensures
            r.signature@ == Seq::<char>::empty(),
            r.key@ == Seq::<char>::empty(),
    {
        ExpressionProof { signature: String::new(), key: String::new() }
    }
}

/// A link together with its author, time and proof.
#[derive(Debug, Clone, PartialEq, Eq, Hash)]
pub struct LinkExpression {
    pub author: String,
    pub timestamp: String,
    pub data: Link,
    pub expression_proof: ExpressionProof,
}

/// The links that one revision adds and removes.
#[derive(Debug, Clone, PartialEq, Eq, Hash)]
pub struct PerspectiveDiff {
    pub additions: Vec<LinkExpression>,
    pub removals: Vec<LinkExpression>,
}

/// A diff stored in the chain, with the revisions it follows.
#[derive(Debug, Clone, PartialEq, Eq, Hash)]
pub struct PerspectiveDiffEntry {
    pub parents: Vec<usize>,
    pub diff: PerspectiveDiff,
}

/// A merge of several revisions, named by their hashes.
#[derive(Debug, PartialEq)]
pub struct MergeEntry {
    pub parents: Vec<String>,
}

/// All links of a perspective at some point, with the snapshot before it.
#[derive(Debug, PartialEq)]
pub struct Snapshot {
    pub links: Vec<LinkExpression>,
    pub last_snapshot: String,
}

/// The mathematical content of a [`PerspectiveDiff`].
#[verifier::ext_equal]
pub struct DiffView {
    pub additions: Seq<LinkExpression>,
    pub removals: Seq<LinkExpression>,
}

/// The mathematical content of a [`PerspectiveDiffEntry`].
#[verifier::ext_equal]
pub struct EntryView {
    pub parents: Seq<usize>,
    pub diff: DiffView,
}

impl View for PerspectiveDiff {
    type V = DiffView;

    open spec fn view(&self) -> DiffView {
        DiffView { additions: self.additions@, removals: self.removals@ }
    }
}

impl View for PerspectiveDiffEntry {
    type V = EntryView;

    open spec fn view(&self) -> EntryView {
        EntryView { parents: self.parents@, diff: self.diff@ }
    }
}

/// The diff that adds and removes nothing.
pub open spec fn empty_diff() -> DiffView {
    DiffView { additions: Seq::empty(), removals: Seq::empty() }
}

/// Concatenation of two diffs: additions after additions, removals after removals.
pub open spec fn concat_diff(a: DiffView, b: DiffView) -> DiffView {
    DiffView { additions: a.additions + b.additions, removals: a.removals + b.removals }
}

impl Link {
    /// A copy of the link, equal to it.
    pub fn duplicate(&self) -> (r: Link)
        ensures
            r == *self,
    {
        let source = match &self.source {
            Some(s) => Some(s.clone()),
            None => None,
        };
        let predicate = match &self.predicate {
            Some(s) => Some(s.clone()),
            None => None,
        };
        let target = match &self.target {
            Some(s) => Some(s.clone()),
            None => None,
        };
        Link { source, predicate, target }
    }
}

impl LinkExpression {
    /// A copy of the expression, equal to it.
    pub fn duplicate(&self) -> (r: LinkExpression)
        ensures
            r == *self,
    {
        LinkExpression {
            author: self.author.clone(),
            timestamp: self.timestamp.clone(),
            data: self.data.duplicate(),
            expression_proof: ExpressionProof {
                signature: self.expression_proof.signature.clone(),
                key: self.expression_proof.key.clone(),
            },
        }
    }
}

/// A copy of a list of link expressions, element by element.
pub fn duplicate_links(links: &Vec<LinkExpression>) -> (r: Vec<LinkExpression>)
    ensures
        r@ == links@,
{
    let mut r: Vec<LinkExpression> = Vec::new();
    let mut i: usize = 0;
    while i < links.len()
        invariant
            i <= links.len(),
            r@ == links@.take(i as int),
        decreases links.len() - i,
    {
        r.push(links[i].duplicate());
        i = i + 1;
        assert(r@ =~= links@.take(i as int));
    }
    assert(links@.take(links.len() as int) =~= links@);
    r
}

impl PerspectiveDiff {
    /// The diff that adds and removes nothing.
    pub fn empty() -> (r: PerspectiveDiff)
        ensures
            r@ == empty_diff(),
    {
        PerspectiveDiff { additions: Vec::new(), removals: Vec::new() }
    }

    /// A copy of the diff with the same additions and removals.
    pub fn duplicate(&self) -> (r: PerspectiveDiff)
        ensures
            r@ == self@,
    {
        PerspectiveDiff {
            additions: duplicate_links(&self.additions),
            removals: duplicate_links(&self.removals),
        }
    }

    /// Appends the additions and removals of `other` to those of `self`.
    pub fn extend_with(&mut self, other: &PerspectiveDiff)
        ensures
            final(self)@ == concat_diff(old(self)@, other@),
            final(self).additions@ == old(self).additions@ + other.additions@,
            final(self).removals@ == old(self).removals@ + other.removals@,
    {
        let mut additions = duplicate_links(&other.additions);
        let mut removals = duplicate_links(&other.removals);
        self.additions.append(&mut additions);
        self.removals.append(&mut removals);
    }
}

} // verus!
