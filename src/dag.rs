use std::collections::{BTreeMap, HashMap};
use vstd::prelude::*;
use vstd::std_specs::iter::IteratorSpec;

use crate::certificate::{Address, Certificate, CertificateId};

verus! {

broadcast use {vstd::std_specs::hash::group_hash_axioms, vstd::std_specs::btree::group_btree_axioms};

/// The certificates of one round, keyed by author.
pub type RoundCertificates = HashMap<Address, Certificate>;

/// The abstract graph: round -> author -> certificate.
pub type GraphModel = Map<u64, Map<Address, Certificate>>;

/// Reads a concrete graph as nested maps.
pub open spec fn graph_of(g: Map<u64, RoundCertificates>) -> GraphModel {
    Map::new(|r: u64| g.contains_key(r), |r: u64| g[r]@)
}

/// Whether some certificate of `round` carries the identifier `id`.
pub open spec fn round_contains_id(g: GraphModel, round: u64, id: CertificateId) -> bool {
    g.contains_key(round) && exists|a: Address|
        #[trigger] g[round].contains_key(a) && g[round][a].certificate_id == id
}

/// The certificate stored for `(round, author)`, if any.
pub open spec fn certificate_at(g: GraphModel, round: u64, author: Address) -> Option<Certificate> {
    if g.contains_key(round) && g[round].contains_key(author) {
        Some(g[round][author])
    } else {
        None
    }
}

/// The graph after storing `c` under its round and author, replacing what
/// was stored there.
pub open spec fn graph_after_insert(g: GraphModel, c: Certificate) -> GraphModel {
    let inner = if g.contains_key(c.round) {
        g[c.round]
    } else {
        Map::empty()
    };
    g.insert(c.round, inner.insert(c.author, c))
}

/// The larger of two rounds.
pub open spec fn max_round(a: u64, b: u64) -> u64 {
    if a >= b {
        a
    } else {
        b
    }
}

/// The committed rounds per author after committing `c`: the author's entry
/// becomes the larger of its old value (zero when absent) and `c.round`.
pub open spec fn authors_after_commit(m: Map<Address, u64>, c: Certificate) -> Map<Address, u64> {
    let prev = if m.contains_key(c.author) {
        m[c.author]
    } else {
        0
    };
    m.insert(c.author, max_round(prev, c.round))
}

/// `v` is the largest value of `m`, or zero when `m` is empty.
pub open spec fn is_max_value(m: Map<Address, u64>, v: u64) -> bool {
    &&& forall|a: Address| #[trigger] m.contains_key(a) ==> m[a] <= v
    &&& (m.dom().is_empty() ==> v == 0)
    &&& (!m.dom().is_empty() ==> exists|a: Address| #[trigger] m.contains_key(a) && m[a] == v)
}

/// Whether round `r` lies inside the retention window: `r + gc > last`,
/// computed without overflow.
pub open spec fn within_window(r: u64, gc: u64, last: u64) -> bool {
    r + gc > last
}

/// What a commit of a certificate of `author` at `round` keeps of round `r`.
pub open spec fn pruned_round(g: GraphModel, r: u64, round: u64, author: Address) -> Map<
    Address,
    Certificate,
> {
    if r <= round {
        g[r].remove(author)
    } else {
        g[r]
    }
}

/// The graph after a commit of a certificate of `author` at `round`, with
/// `last` the new last committed round and `gc` the retention window:
/// rounds outside the window go, and the author's entries at or below
/// `round` go, together with any round left empty by that.
pub open spec fn graph_after_commit(
    g: GraphModel,
    round: u64,
    author: Address,
    last: u64,
    gc: u64,
) -> GraphModel {
    Map::new(
        |r: u64|
            g.contains_key(r) && within_window(r, gc, last) && !pruned_round(
                g,
                r,
                round,
                author,
            ).dom().is_empty(),
        |r: u64| pruned_round(g, r, round, author),
    )
}

proof fn lemma_commit_keeps_max(m: Map<Address, u64>, c: Certificate, last: u64)
    requires
        is_max_value(m, last),
    ensures
        is_max_value(authors_after_commit(m, c), max_round(last, c.round)),
{
    let n = authors_after_commit(m, c);
    let v = max_round(last, c.round);
    assert(n.contains_key(c.author));
    if c.round > last {
        assert(n[c.author] == v);
    } else if m.dom().is_empty() {
        assert(n[c.author] == v);
    } else {
        let a0 = choose|a: Address| #[trigger] m.contains_key(a) && m[a] == last;
        assert(n.contains_key(a0) && n[a0] == v);
    }
}

/// Scans the certificates of a round for one with the given identifier.
fn find_by_id(certificates: &RoundCertificates, certificate_id: CertificateId) -> (r: Option<
    Certificate,
>)
    ensures
        r is Some <==> exists|a: Address|
            #[trigger] certificates@.contains_key(a) && certificates@[a].certificate_id
                == certificate_id,
        r matches Some(c) ==> c.certificate_id == certificate_id && exists|a: Address|
            #[trigger] certificates@.contains_key(a) && certificates@[a] == c,
{
    let mut found: Option<Certificate> = None;
    let ghost entries = certificates.iter().remaining();
    for entry in it: certificates.iter()
        invariant
            it.seq() == entries,
            forall|j: int|
                0 <= j < entries.len() ==> #[trigger] certificates@.contains_key(*entries[j].0)
                    && certificates@[*entries[j].0] == *entries[j].1,
            forall|a: Address| #[trigger]
                certificates@.contains_key(a) ==> entries.contains((&a, &certificates@[a])),
            found is None ==> forall|j: int|
                0 <= j < it.index() ==> (#[trigger] entries[j].1).certificate_id != certificate_id,
            found matches Some(c) ==> c.certificate_id == certificate_id && exists|a: Address|
                #[trigger] certificates@.contains_key(a) && certificates@[a] == c,
    {
        proof {
            assert(certificates@.contains_key(*entries[it.index()].0));
        }
        if found.is_none() && entry.1.certificate_id == certificate_id {
            found = Some(*entry.1);
        }
    }
    proof {
        if found is None {
            assert forall|a: Address| #[trigger] certificates@.contains_key(a) implies certificates@[
                a
            ].certificate_id != certificate_id by {
                let j = choose|j: int| 0 <= j < entries.len() && entries[j] == (&a, &certificates@[a]);
                assert((entries[j].1).certificate_id != certificate_id);
            }
        }
    }
    found
}

/// A graph of certificates indexed by round and author, with the bookkeeping
/// of which rounds each author has committed.
#[derive(Debug)]
pub struct DAG {
    /// The in-memory collection of certificates that comprise the DAG.
    graph: BTreeMap<u64, RoundCertificates>,
    /// The last round that was committed.
    last_committed_round: u64,
    /// The last round committed by each author.
    last_committed_authors: HashMap<Address, u64>,
}

impl DAG {
    /// The stored certificates, round -> author -> certificate.
    pub closed spec fn spec_graph(&self) -> GraphModel {
        graph_of(self.graph@)
    }

    /// The last committed round.
    pub closed spec fn spec_last_round(&self) -> u64 {
        self.last_committed_round
    }

    /// The last committed round of each author.
    pub closed spec fn spec_authors(&self) -> Map<Address, u64> {
        self.last_committed_authors@
    }

    /// Well-formedness: each stored certificate sits under its own round and
    /// author, no round is stored empty, and the last committed round is the
    /// largest round of the author map.
    pub closed spec fn wf(&self) -> bool {
        &&& forall|r: u64, a: Address|
            #[trigger] self.graph@.contains_key(r) && #[trigger] self.graph@[r]@.contains_key(a)
                ==> self.graph@[r]@[a].round == r && self.graph@[r]@[a].author == a
        &&& forall|r: u64| #[trigger]
            self.graph@.contains_key(r) ==> !self.graph@[r]@.dom().is_empty()
        &&& is_max_value(self.last_committed_authors@, self.last_committed_round)
    }

    /// Initializes a new, empty DAG.
    pub fn new() -> (d: Self)
        ensures
            d.wf(),
            d.spec_graph() == Map::<u64, Map<Address, Certificate>>::empty(),
            d.spec_last_round() == 0,
            d.spec_authors() == Map::<Address, u64>::empty(),
    {
        let d = DAG { graph: BTreeMap::new(), last_committed_round: 0, last_committed_authors: HashMap::new() };
        assert(d.spec_graph() =~= Map::<u64, Map<Address, Certificate>>::empty());
        d
    }

    /// Inserts a certificate into the DAG, replacing the one stored for the
    /// same round and author.
    pub fn insert(&mut self, certificate: Certificate)
        requires
            old(self).wf(),
        ensures
            final(self).wf(),
            final(self).spec_graph() == graph_after_insert(old(self).spec_graph(), certificate),
            final(self).spec_last_round() == old(self).spec_last_round(),
            final(self).spec_authors() == old(self).spec_authors(),
    {
        let round = certificate.round();
        let author = certificate.author();
        let mut certificates = match self.graph.remove(&round) {
            Some(m) => m,
            None => HashMap::new(),
        };
        certificates.insert(author, certificate);
        self.graph.insert(round, certificates);
        assert(self.spec_graph() =~= graph_after_insert(old(self).spec_graph(), certificate));
    }

    /// Commits a certificate: records its round for its author, advances the
    /// last committed round, drops the rounds that fell out of the retention
    /// window `max_gc_rounds`, and drops the author's certificates at or
    /// below the committed round.
    pub fn commit(&mut self, certificate: Certificate, max_gc_rounds: u64)
        requires
            old(self).wf(),
        ensures
            final(self).wf(),
            final(self).spec_authors() == authors_after_commit(old(self).spec_authors(), certificate),
            final(self).spec_last_round() == max_round(old(self).spec_last_round(), certificate.round),
            forall|a: Address| #[trigger]
                old(self).spec_authors().contains_key(a) ==> final(self).spec_authors().contains_key(a)
                    && final(self).spec_authors()[a] >= old(self).spec_authors()[a],
            final(self).spec_graph() == graph_after_commit(
                old(self).spec_graph(),
                certificate.round,
                certificate.author,
                final(self).spec_last_round(),
                max_gc_rounds,
            ),
            forall|r: u64| #[trigger]
                final(self).spec_graph().contains_key(r) ==> r + max_gc_rounds > final(self).spec_last_round(),
            forall|r: u64|
                r <= certificate.round ==> certificate_at(
                    final(self).spec_graph(),
                    r,
                    certificate.author,
                ) is None,
    {
        let certificate_round = certificate.round();
        let author = certificate.author();

        // Update the last committed round for the author.
        let updated = match self.last_committed_authors.get(&author) {
            Some(last) => if certificate_round > *last {
                certificate_round
            } else {
                *last
            },
            None => certificate_round,
        };
        self.last_committed_authors.insert(author, updated);

        // Update the last committed round: the largest over all authors.
        let mut largest: u64 = 0;
        let ghost entries = self.last_committed_authors.iter().remaining();
        for entry in it: self.last_committed_authors.iter()
            invariant
                it.seq() == entries,
                forall|j: int| 0 <= j < it.index() ==> *it.seq()[j].1 <= largest,
                forall|j: int| 0 <= j < entries.len() ==> #[trigger] self.last_committed_authors@.contains_key(*entries[j].0) && self.last_committed_authors@[*entries[j].0] == *entries[j].1,
                largest == 0 || exists|a: Address| #[trigger] self.last_committed_authors@.contains_key(a) && self.last_committed_authors@[a] == largest,
        {
            proof {
                assert(self.last_committed_authors@.contains_key(*entries[it.index()].0));
            }
            if *entry.1 > largest {
                largest = *entry.1;
            }
        }
        proof {
            let m = self.last_committed_authors@;
            let target = max_round(old(self).spec_last_round(), certificate_round);
            assert(m == authors_after_commit(old(self).spec_authors(), certificate));
            lemma_commit_keeps_max(old(self).spec_authors(), certificate, old(self).spec_last_round());
            assert forall|a: Address| #[trigger] m.contains_key(a) implies m[a] <= largest by {
                assert(entries.contains((&a, &m[a])));
            }
            assert(m.contains_key(author));
            assert(largest == target);
        }
        self.last_committed_round = largest;
        let last = largest;

        // Collect the rounds, then prune each one.
        let mut rounds: Vec<u64> = Vec::new();
        let ghost keys = self.graph.keys().remaining();
        for r in kit: self.graph.keys()
            invariant
                kit.seq() == keys,
                rounds@ == keys.unref().subrange(0, kit.index() as int),
        {
            rounds.push(*r);
        }
        let ghost g0 = self.spec_graph();
        let ghost target = graph_after_commit(g0, certificate_round, author, last, max_gc_rounds);
        proof {
            assert(rounds@ =~= keys.unref());
            assert(g0.dom() =~= self.graph@.dom());
        }
        let mut i: usize = 0;
        while i < rounds.len()
            invariant
                0 <= i <= rounds.len(),
                self.last_committed_authors@ == authors_after_commit(old(self).spec_authors(), certificate),
                self.last_committed_round == last,
                is_max_value(self.last_committed_authors@, last),
                target == graph_after_commit(g0, certificate_round, author, last, max_gc_rounds),
                forall|r: u64, a: Address|
                    #[trigger] g0.contains_key(r) && #[trigger] g0[r].contains_key(a) ==> g0[r][a].round == r
                        && g0[r][a].author == a,
                forall|r: u64| #[trigger] g0.contains_key(r) ==> !g0[r].dom().is_empty(),
                rounds@.no_duplicates(),
                rounds@.to_set() == g0.dom(),
                forall|r: u64|
                    #![trigger rounds@.subrange(0, i as int).contains(r)]
                    #![trigger self.spec_graph().contains_key(r)]
                    #![trigger target.contains_key(r)]
                    rounds@.subrange(0, i as int).contains(r) ==> (self.spec_graph().contains_key(r)
                        == target.contains_key(r) && (target.contains_key(r)
                        ==> self.spec_graph()[r] == target[r])),
                forall|r: u64|
                    #![trigger rounds@.subrange(0, i as int).contains(r)]
                    #![trigger self.spec_graph().contains_key(r)]
                    #![trigger g0.contains_key(r)]
                    !rounds@.subrange(0, i as int).contains(r) ==> (self.spec_graph().contains_key(r)
                        == g0.contains_key(r) && (g0.contains_key(r) ==> self.spec_graph()[r]
                        == g0[r])),
            decreases rounds.len() - i,
        {
            let r = rounds[i];
            proof {
                assert(rounds@.subrange(0, i + 1) =~= rounds@.subrange(0, i as int).push(r));
                assert(rounds@.to_set().contains(r));
                assert(!rounds@.subrange(0, i as int).contains(r)) by {
                    if rounds@.subrange(0, i as int).contains(r) {
                        let j = choose|j: int| 0 <= j < i && rounds@.subrange(0, i as int)[j] == r;
                        assert(rounds@[j] == rounds@[i as int]);
                    }
                }
            }
            let ghost before = self.graph@;
            let ghost before_view = self.spec_graph();
            let in_window = match r.checked_add(max_gc_rounds) {
                Some(sum) => sum > last,
                None => true,
            };
            if !in_window {
                // Remove certificates that are below the GC round.
                self.graph.remove(&r);
            } else if r <= certificate_round {
                // Remove the author's certificate at or below the committed round.
                if let Some(mut certificates) = self.graph.remove(&r) {
                    certificates.remove(&author);
                    if !certificates.is_empty() {
                        self.graph.insert(r, certificates);
                    }
                }
            }
            assert forall|k: u64| k != r implies #[trigger] self.graph@.contains_key(k)
                == before.contains_key(k) && (before.contains_key(k) ==> self.graph@[k]
                == before[k]) by {}
            assert forall|k: u64| !rounds@.subrange(0, i + 1).contains(k) implies (
            #[trigger] self.spec_graph().contains_key(k) == g0.contains_key(k) && (g0.contains_key(k)
                ==> self.spec_graph()[k] == g0[k])) by {
                assert(!rounds@.subrange(0, i as int).contains(k));
                assert(rounds@.subrange(0, i + 1)[i as int] == r);
                assert(k != r);
                assert(before_view.contains_key(k) == g0.contains_key(k));
            }
            i = i + 1;
        }
        proof {
            assert(rounds@.subrange(0, rounds@.len() as int) =~= rounds@);
            assert(self.spec_graph() =~= target);
            assert forall|r: u64, a: Address|
                #[trigger] self.graph@.contains_key(r) && #[trigger] self.graph@[r]@.contains_key(a)
                implies self.graph@[r]@[a].round == r && self.graph@[r]@[a].author == a by {
                assert(self.spec_graph().contains_key(r));
                assert(g0.contains_key(r) && g0[r].contains_key(a));
            }
            assert forall|r: u64| #[trigger] self.graph@.contains_key(r) implies !self.graph@[
                r
            ]@.dom().is_empty() by {
                assert(self.spec_graph().contains_key(r));
            }
        }
    }

    /// Returns the DAG.
    pub fn graph(&self) -> (g: &BTreeMap<u64, RoundCertificates>)
        ensures
            graph_of(g@) == self.spec_graph(),
    {
        &self.graph
    }

    /// Returns the last committed round.
    pub fn last_committed_round(&self) -> (r: u64)
        ensures
            r == self.spec_last_round(),
    {
        self.last_committed_round
    }

    /// Returns the last committed round of each author.
    pub fn last_committed_authors(&self) -> (m: &HashMap<Address, u64>)
        ensures
            m@ == self.spec_authors(),
    {
        &self.last_committed_authors
    }

    /// Returns `true` if the given certificate ID exists in the given round.
    pub fn contains_certificate_in_round(&self, round: u64, certificate_id: CertificateId) -> (b:
        bool)
        ensures
            b == round_contains_id(self.spec_graph(), round, certificate_id),
    {
        match self.graph.get(&round) {
            Some(certificates) => {
                assert(self.spec_graph()[round] == certificates@);
                find_by_id(certificates, certificate_id).is_some()
            },
            None => false,
        }
    }

    /// Returns the certificate for the given round and author.
    pub fn get_certificate_for_round_with_author(&self, round: u64, author: Address) -> (r: Option<
        Certificate,
    >)
        ensures
            r == certificate_at(self.spec_graph(), round, author),
    {
        match self.graph.get(&round) {
            Some(certificates) => match certificates.get(&author) {
                Some(c) => Some(*c),
                None => None,
            },
            None => None,
        }
    }

    /// Returns a certificate of the given round with the given ID. Should two
    /// certificates of the round share the ID, either may be returned.
    pub fn get_certificate_for_round_with_id(&self, round: u64, certificate_id: CertificateId) -> (r:
        Option<Certificate>)
        requires
            self.wf(),
        ensures
            r is Some <==> round_contains_id(self.spec_graph(), round, certificate_id),
            r matches Some(c) ==> c.certificate_id == certificate_id && certificate_at(
                self.spec_graph(),
                round,
                c.author,
            ) == Some(c),
    {
        match self.graph.get(&round) {
            Some(certificates) => {
                assert(self.spec_graph()[round] == certificates@);
                find_by_id(certificates, certificate_id)
            },
            None => None,
        }
    }

    /// Returns the certificates of the given round, keyed by author.
    pub fn get_certificates_for_round(&self, round: u64) -> (r: Option<RoundCertificates>)
        ensures
            r is Some <==> self.spec_graph().contains_key(round),
            r matches Some(m) ==> m@ == self.spec_graph()[round],
    {
        match self.graph.get(&round) {
            Some(certificates) => Some(certificates.clone()),
            None => None,
        }
    }
}

impl Default for DAG {
    /// Initializes a new, empty DAG.
    fn default() -> (d: Self)
        ensures
            d.wf(),
            d.spec_graph() == Map::<u64, Map<Address, Certificate>>::empty(),
            d.spec_last_round() == 0,
            d.spec_authors() == Map::<Address, u64>::empty(),
    {
        Self::new()
    }
}

/// After a certificate is inserted, its identifier is found in its round and
/// it is the certificate stored for its round and author.
pub proof fn lemma_insert_then_found(g: GraphModel, c: Certificate)
    ensures
        round_contains_id(graph_after_insert(g, c), c.round, c.certificate_id),
        certificate_at(graph_after_insert(g, c), c.round, c.author) == Some(c),
{
    let h = graph_after_insert(g, c);
    assert(h[c.round].contains_key(c.author));
}

/// Inserting a second certificate for the same round and author replaces
/// the first: the result is as if only the second had been inserted, and
/// only the second is retrievable.
pub proof fn lemma_insert_replaces(g: GraphModel, first: Certificate, second: Certificate)
    requires
        first.round == second.round,
        first.author == second.author,
    ensures
        graph_after_insert(graph_after_insert(g, first), second) == graph_after_insert(g, second),
        certificate_at(graph_after_insert(graph_after_insert(g, first), second), second.round, second.author)
            == Some(second),
{
    let inner = if g.contains_key(first.round) {
        g[first.round]
    } else {
        Map::empty()
    };
    assert(inner.insert(first.author, first).insert(second.author, second) =~= inner.insert(
        second.author,
        second,
    ));
    assert(graph_after_insert(graph_after_insert(g, first), second) =~= graph_after_insert(g, second));
}

/// After a commit, every remaining round lies inside the retention window
/// behind the last committed round, and the committing author has no
/// certificate left at or below the committed round.
pub proof fn lemma_commit_prunes(g: GraphModel, round: u64, author: Address, last: u64, gc: u64)
    ensures
        forall|r: u64| #[trigger]
            graph_after_commit(g, round, author, last, gc).contains_key(r) ==> r + gc > last,
        forall|r: u64|
            r <= round ==> #[trigger] certificate_at(
                graph_after_commit(g, round, author, last, gc),
                r,
                author,
            ) is None,
{
}

/// Committing a certificate removes its identifier from its round, provided
/// no other author's certificate of that round carries the same identifier.
pub proof fn lemma_commit_removes_certificate(g: GraphModel, c: Certificate, last: u64, gc: u64)
    requires
        g.contains_key(c.round) ==> forall|a: Address|
            #[trigger] g[c.round].contains_key(a) && a != c.author ==> g[c.round][a].certificate_id
                != c.certificate_id,
    ensures
        !round_contains_id(graph_after_commit(g, c.round, c.author, last, gc), c.round, c.certificate_id),
{
    let h = graph_after_commit(g, c.round, c.author, last, gc);
    if h.contains_key(c.round) {
        assert forall|a: Address| #[trigger] h[c.round].contains_key(a) implies h[c.round][a].certificate_id
            != c.certificate_id by {
            assert(g[c.round].contains_key(a) && a != c.author);
        }
    }
}

/// In a well-formed DAG the last committed round is the largest round of the
/// author map (zero when it is empty), every stored certificate sits under
/// its own round and author, and no round is stored empty.
pub proof fn lemma_wf_facts(d: &DAG)
    requires
        d.wf(),
    ensures
        is_max_value(d.spec_authors(), d.spec_last_round()),
        forall|r: u64, a: Address|
            d.spec_graph().contains_key(r) && #[trigger] d.spec_graph()[r].contains_key(a)
                ==> d.spec_graph()[r][a].round == r && d.spec_graph()[r][a].author == a,
        forall|r: u64| #[trigger]
            d.spec_graph().contains_key(r) ==> !d.spec_graph()[r].dom().is_empty(),
{
    assert forall|r: u64, a: Address|
        d.spec_graph().contains_key(r) && #[trigger] d.spec_graph()[r].contains_key(a)
            implies d.spec_graph()[r][a].round == r && d.spec_graph()[r][a].author == a by {
        assert(d.graph@.contains_key(r) && d.graph@[r]@.contains_key(a));
    }
}

} // verus!
