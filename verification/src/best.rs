//! The verified address chosen for each domain: a map from domain to IP
//! address, kept as a listing sorted by domain.

use vstd::prelude::*;
use crate::order::{text_lt, str_lt, lemma_text_lt_irreflexive, lemma_text_lt_transitive, lemma_text_lt_total};

verus! {

/// A listing of `(domain, ip)` pairs.
pub type Listing = Seq<(Seq<char>, Seq<char>)>;

/// The domains of the listing strictly increase, so none occurs twice.
pub open spec fn is_sorted_listing(e: Listing) -> bool {
    forall|i: int, j: int| 0 <= i < j < e.len() ==> text_lt(#[trigger] e[i].0, #[trigger] e[j].0)
}

/// The listing holds the pair `(k, v)`.
pub open spec fn has_entry(e: Listing, k: Seq<char>, v: Seq<char>) -> bool {
    exists|i: int| 0 <= i < e.len() && #[trigger] e[i] == (k, v)
}

/// The listing holds some pair with domain `k`.
pub open spec fn has_key(e: Listing, k: Seq<char>) -> bool {
    exists|i: int| 0 <= i < e.len() && #[trigger] e[i].0 == k
}

/// Two sorted listings with the same pairs are the same listing: the pairs
/// alone decide the order in which they are written.
pub proof fn lemma_sorted_listing_unique(a: Listing, b: Listing)
    requires
        is_sorted_listing(a),
        is_sorted_listing(b),
        forall|k: Seq<char>, v: Seq<char>| has_entry(a, k, v) <==> has_entry(b, k, v),
    ensures
        a == b,
    decreases a.len(),
{
    if a.len() == 0 {
        if b.len() > 0 {
            assert(has_entry(b, b[0].0, b[0].1));
        }
        assert(a =~= b);
    } else if b.len() == 0 {
        assert(has_entry(a, a[0].0, a[0].1));
    } else {
        assert(has_entry(a, a[0].0, a[0].1));
        assert(has_entry(b, b[0].0, b[0].1));
        let j = choose|j: int| 0 <= j < b.len() && b[j] == (a[0].0, a[0].1);
        let i = choose|i: int| 0 <= i < a.len() && a[i] == (b[0].0, b[0].1);
        if a[0] != b[0] {
            assert(j != 0 && i != 0);
            assert(text_lt(b[0].0, b[j].0));
            assert(text_lt(a[0].0, a[i].0));
            lemma_text_lt_transitive(a[0].0, b[0].0, a[0].0);
            lemma_text_lt_irreflexive(a[0].0);
        }
        let a1 = a.drop_first();
        let b1 = b.drop_first();
        assert forall|k: Seq<char>, v: Seq<char>| has_entry(a1, k, v) <==> has_entry(b1, k, v) by {
            if has_entry(a1, k, v) {
                let p = choose|p: int| 0 <= p < a1.len() && a1[p] == (k, v);
                assert(a[p + 1] == (k, v));
                assert(has_entry(b, k, v));
                let q = choose|q: int| 0 <= q < b.len() && b[q] == (k, v);
                if q == 0 {
                    assert(text_lt(a[0].0, a[p + 1].0));
                    lemma_text_lt_irreflexive(a[0].0);
                }
                assert(b1[q - 1] == (k, v));
            }
            if has_entry(b1, k, v) {
                let p = choose|p: int| 0 <= p < b1.len() && b1[p] == (k, v);
                assert(b[p + 1] == (k, v));
                assert(has_entry(a, k, v));
                let q = choose|q: int| 0 <= q < a.len() && a[q] == (k, v);
                if q == 0 {
                    assert(text_lt(b[0].0, b[p + 1].0));
                    lemma_text_lt_irreflexive(b[0].0);
                }
                assert(a1[q - 1] == (k, v));
            }
        }
        lemma_sorted_listing_unique(a1, b1);
        assert(a =~= seq![a[0]] + a1);
        assert(b =~= seq![b[0]] + b1);
    }
}

proof fn lemma_replace_entry(e: Listing, p: int, pair: (Seq<char>, Seq<char>))
    requires
        is_sorted_listing(e),
        0 <= p < e.len(),
        e[p].0 == pair.0,
    ensures
        is_sorted_listing(e.update(p, pair)),
        forall|k: Seq<char>, v: Seq<char>|
            #[trigger] has_entry(e.update(p, pair), k, v) <==> ((k == pair.0 && v == pair.1) || (has_entry(
                e,
                k,
                v,
            ) && k != pair.0)),
{
    let f = e.update(p, pair);
    assert forall|i: int, j: int| 0 <= i < j < f.len() implies text_lt(#[trigger] f[i].0, #[trigger] f[j].0) by {
        assert(text_lt(e[i].0, e[j].0));
    }
    assert forall|k: Seq<char>, v: Seq<char>|
        has_entry(f, k, v) <==> ((k == pair.0 && v == pair.1) || (has_entry(e, k, v) && k != pair.0)) by {
        if has_entry(f, k, v) {
            let i = choose|i: int| 0 <= i < f.len() && f[i] == (k, v);
            if i != p {
                assert(e[i] == (k, v));
                if i < p {
                    assert(text_lt(e[i].0, e[p].0));
                } else {
                    assert(text_lt(e[p].0, e[i].0));
                }
                lemma_text_lt_irreflexive(k);
            }
        }
        if k == pair.0 && v == pair.1 {
            assert(f[p] == (k, v));
        }
        if has_entry(e, k, v) && k != pair.0 {
            let i = choose|i: int| 0 <= i < e.len() && e[i] == (k, v);
            assert(f[i] == (k, v));
        }
    }
}

proof fn lemma_insert_entry(e: Listing, p: int, pair: (Seq<char>, Seq<char>))
    requires
        is_sorted_listing(e),
        0 <= p <= e.len(),
        forall|k: int| 0 <= k < p ==> text_lt(#[trigger] e[k].0, pair.0),
        p < e.len() ==> text_lt(pair.0, e[p].0),
    ensures
        is_sorted_listing(e.insert(p, pair)),
        forall|k: Seq<char>, v: Seq<char>|
            #[trigger] has_entry(e.insert(p, pair), k, v) <==> ((k == pair.0 && v == pair.1) || (has_entry(
                e,
                k,
                v,
            ) && k != pair.0)),
{
    let f = e.insert(p, pair);
    assert forall|i: int| 0 <= i < e.len() implies #[trigger] e[i].0 != pair.0 by {
        if i < p {
            assert(text_lt(e[i].0, pair.0));
        } else if i > p {
            assert(text_lt(e[p].0, e[i].0));
            lemma_text_lt_transitive(pair.0, e[p].0, e[i].0);
        }
        lemma_text_lt_irreflexive(pair.0);
    }
    assert forall|i: int, j: int| 0 <= i < j < f.len() implies text_lt(#[trigger] f[i].0, #[trigger] f[j].0) by {
        if j < p {
            assert(text_lt(e[i].0, e[j].0));
        } else if j == p {
            assert(text_lt(e[i].0, pair.0));
        } else if i == p {
            if j - 1 > p {
                assert(text_lt(e[p].0, e[j - 1].0));
                lemma_text_lt_transitive(pair.0, e[p].0, e[j - 1].0);
            }
        } else if i < p {
            assert(text_lt(e[i].0, e[j - 1].0));
        } else {
            assert(text_lt(e[i - 1].0, e[j - 1].0));
        }
    }
    assert forall|k: Seq<char>, v: Seq<char>|
        has_entry(f, k, v) <==> ((k == pair.0 && v == pair.1) || (has_entry(e, k, v) && k != pair.0)) by {
        if has_entry(f, k, v) {
            let i = choose|i: int| 0 <= i < f.len() && f[i] == (k, v);
            if i < p {
                assert(e[i] == (k, v));
                assert(e[i].0 != pair.0);
            } else if i > p {
                assert(e[i - 1] == (k, v));
                assert(e[i - 1].0 != pair.0);
            }
        }
        if k == pair.0 && v == pair.1 {
            assert(f[p] == (k, v));
        }
        if has_entry(e, k, v) && k != pair.0 {
            let i = choose|i: int| 0 <= i < e.len() && e[i] == (k, v);
            if i < p {
                assert(f[i] == (k, v));
            } else {
                assert(f[i + 1] == (k, v));
            }
        }
    }
}

/// Domain to IP address, one address per domain.
pub struct BestIps {
    entries: Vec<(String, String)>,
}

impl View for BestIps {
    type V = Listing;

    closed spec fn view(&self) -> Listing {
        self.entries.deep_view()
    }
}

impl BestIps {
    #[verifier::type_invariant]
    closed spec fn sorted(self) -> bool {
        is_sorted_listing(self.entries.deep_view())
    }

    /// An empty map.
    pub fn new() -> (r: Self)
        ensures
            r@ == Seq::<(Seq<char>, Seq<char>)>::empty(),
    {
        let r = BestIps { entries: Vec::new() };
        assert(r.entries.deep_view() =~= Seq::<(Seq<char>, Seq<char>)>::empty());
        r
    }

    /// Number of domains.
    pub fn len(&self) -> (n: usize)
        ensures
            n == self@.len(),
    {
        self.entries.len()
    }

    /// Whether no domain has an address.
    pub fn is_empty(&self) -> (b: bool)
        ensures
            b == (self@.len() == 0),
    {
        self.entries.len() == 0
    }

    /// The pairs in increasing order of domain.
    pub fn entries(&self) -> (r: &Vec<(String, String)>)
        ensures
            r.deep_view() == self@,
            is_sorted_listing(self@),
    {
        proof {
            use_type_invariant(self);
        }
        &self.entries
    }

    /// Sets the address of `domain` to `ip`, replacing any address it had.
    pub fn insert(&mut self, domain: String, ip: String)
        ensures
            is_sorted_listing(final(self)@),
            forall|k: Seq<char>, v: Seq<char>|
                #[trigger] has_entry(final(self)@, k, v) <==> ((k == domain@ && v == ip@) || (has_entry(
                    old(self)@,
                    k,
                    v,
                ) && k != domain@)),
    {
        proof {
            use_type_invariant(&*self);
        }
        let ghost old_view = self@;
        let n = self.entries.len();
        let mut p: usize = 0;
        while p < n && str_lt(self.entries[p].0.as_str(), domain.as_str())
            invariant
                n == self.entries.len(),
                self@ == old_view,
                is_sorted_listing(old_view),
                p <= n,
                forall|k: int| 0 <= k < p ==> text_lt(#[trigger] old_view[k].0, domain@),
            decreases n - p,
        {
            p = p + 1;
        }
        let ghost pair = (domain@, ip@);
        if p < n && self.entries[p].0 == domain {
            let mut entries = Vec::new();
            std::mem::swap(&mut entries, &mut self.entries);
            entries.remove(p);
            entries.insert(p, (domain, ip));
            assert(entries.deep_view() =~= old_view.update(p as int, pair));
            proof {
                lemma_replace_entry(old_view, p as int, pair);
            }
            self.entries = entries;
            assert(self@ == old_view.update(p as int, pair));
        } else {
            proof {
                if p < n {
                    lemma_text_lt_total(old_view[p as int].0, domain@);
                }
            }
            let mut entries = Vec::new();
            std::mem::swap(&mut entries, &mut self.entries);
            entries.insert(p, (domain, ip));
            assert(entries.deep_view() =~= old_view.insert(p as int, pair));
            proof {
                lemma_insert_entry(old_view, p as int, pair);
            }
            self.entries = entries;
            assert(self@ == old_view.insert(p as int, pair));
        }
    }
}

} // verus!
