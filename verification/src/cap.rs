//! Capability tokens and capability sets.
//!
//! A capability names an attribute a slave possesses (for example `"amd64"`),
//! and a command carries the set of capabilities it requires.  A set acts as a
//! whitelist: a command may be assigned to a slave only if the command's
//! required set is a subset of the slave's declared set.
//!
//! A token is modelled by its UTF-8 byte sequence, the form in which it
//! crosses the wire; a capability set is modelled as the sequence of its
//! tokens' byte sequences, kept sorted byte-lexicographically and free of
//! duplicates so that comparison and iteration order are deterministic.

use vstd::prelude::*;

verus! {

/// Byte-lexicographic strict order on token encodings: a proper prefix
/// precedes its extensions, otherwise the first differing byte decides.
pub open spec fn lex_lt(a: Seq<u8>, b: Seq<u8>) -> bool
    decreases a.len(),
{
    if b.len() == 0 {
        false
    } else if a.len() == 0 {
        true
    } else if a[0] != b[0] {
        a[0] < b[0]
    } else {
        lex_lt(a.drop_first(), b.drop_first())
    }
}

pub proof fn lemma_lex_lt_irrefl(a: Seq<u8>)
    ensures
        !lex_lt(a, a),
    decreases a.len(),
{
    if a.len() > 0 {
        lemma_lex_lt_irrefl(a.drop_first());
    }
}

pub proof fn lemma_lex_lt_total(a: Seq<u8>, b: Seq<u8>)
    ensures
        lex_lt(a, b) || lex_lt(b, a) || a == b,
    decreases a.len(),
{
    if a.len() == 0 && b.len() == 0 {
        assert(a =~= b);
    } else if a.len() > 0 && b.len() > 0 && a[0] == b[0] {
        lemma_lex_lt_total(a.drop_first(), b.drop_first());
        if a.drop_first() == b.drop_first() {
            assert(a.drop_first().len() == a.len() - 1);
            assert(b.drop_first().len() == b.len() - 1);
            assert(a.len() == b.len());
            assert forall|i: int| 0 <= i < a.len() implies a[i] == b[i] by {
                if i >= 1 {
                    assert(a[i] == a.drop_first()[i - 1]);
                    assert(b[i] == b.drop_first()[i - 1]);
                }
            }
            assert(a =~= b);
        }
    }
}

pub proof fn lemma_lex_lt_trans(a: Seq<u8>, b: Seq<u8>, c: Seq<u8>)
    requires
        lex_lt(a, b),
        lex_lt(b, c),
    ensures
        lex_lt(a, c),
    decreases a.len(),
{
    if a.len() > 0 && b.len() > 0 && c.len() > 0 && a[0] == b[0] && b[0] == c[0] {
        lemma_lex_lt_trans(a.drop_first(), b.drop_first(), c.drop_first());
    }
}

pub proof fn lemma_lex_lt_asym(a: Seq<u8>, b: Seq<u8>)
    requires
        lex_lt(a, b),
    ensures
        !lex_lt(b, a),
{
    if lex_lt(b, a) {
        lemma_lex_lt_trans(a, b, a);
        lemma_lex_lt_irrefl(a);
    }
}

/// `t` occurs among the token encodings `ts`.
pub open spec fn tokens_contain(ts: Seq<Seq<u8>>, t: Seq<u8>) -> bool {
    exists|i: int| 0 <= i < ts.len() && ts[i] == t
}

/// Every token of `sub` occurs in `sup`.
pub open spec fn tokens_subset(sub: Seq<Seq<u8>>, sup: Seq<Seq<u8>>) -> bool {
    forall|i: int| 0 <= i < sub.len() ==> tokens_contain(sup, #[trigger] sub[i])
}

/// The index-wise reading of `tokens_subset` coincides with the
/// membership-wise one: `sub` is a subset of `sup` exactly when every token
/// contained in `sub` is contained in `sup`; in particular an empty `sub` is
/// always contained.
pub proof fn lemma_subset_iff_membership(sub: Seq<Seq<u8>>, sup: Seq<Seq<u8>>)
    ensures
        tokens_subset(sub, sup) <==> (forall|t: Seq<u8>|
            tokens_contain(sub, t) ==> tokens_contain(sup, t)),
{
    if tokens_subset(sub, sup) {
        assert forall|t: Seq<u8>| tokens_contain(sub, t) implies tokens_contain(sup, t) by {
            let i = choose|i: int| 0 <= i < sub.len() && sub[i] == t;
            assert(tokens_contain(sup, sub[i]));
        }
    }
    if forall|t: Seq<u8>| tokens_contain(sub, t) ==> tokens_contain(sup, t) {
        assert forall|i: int| 0 <= i < sub.len() implies tokens_contain(sup, #[trigger] sub[i]) by {
            assert(tokens_contain(sub, sub[i]));
        }
    }
}

/// Token encodings in strictly increasing byte-lexicographic order, hence
/// pairwise distinct.
pub open spec fn sorted_tokens(ts: Seq<Seq<u8>>) -> bool {
    forall|i: int, j: int| 0 <= i < j < ts.len() ==> #[trigger] lex_lt(ts[i], ts[j])
}

/// Sorting and deduplicating makes the representation canonical: two sorted,
/// duplicate-free token sequences with the same members are identical, so
/// set comparison and cardinality depend on the members alone.
pub proof fn lemma_sorted_canonical(a: Seq<Seq<u8>>, b: Seq<Seq<u8>>)
    requires
        sorted_tokens(a),
        sorted_tokens(b),
        forall|t: Seq<u8>|
            #![trigger tokens_contain(a, t)]
            #![trigger tokens_contain(b, t)]
            tokens_contain(a, t) <==> tokens_contain(b, t),
    ensures
        a == b,
    decreases a.len(),
{
    if a.len() == 0 {
        if b.len() > 0 {
            assert(tokens_contain(b, b[0]));
        }
        assert(a =~= b);
    } else {
        assert(tokens_contain(a, a[0]));
        assert(tokens_contain(b, b[0]));
        let j = choose|j: int| 0 <= j < b.len() && b[j] == a[0];
        let i = choose|i: int| 0 <= i < a.len() && a[i] == b[0];
        if i > 0 && j > 0 {
            assert(lex_lt(b[0], b[j]));
            assert(lex_lt(a[0], a[i]));
            lemma_lex_lt_asym(a[0], b[0]);
        }
        assert(a[0] == b[0]);
        let a1 = a.drop_first();
        let b1 = b.drop_first();
        assert forall|i2: int, j2: int| 0 <= i2 < j2 < a1.len() implies #[trigger] lex_lt(
            a1[i2],
            a1[j2],
        ) by {
            assert(a1[i2] == a[i2 + 1] && a1[j2] == a[j2 + 1]);
        }
        assert forall|i2: int, j2: int| 0 <= i2 < j2 < b1.len() implies #[trigger] lex_lt(
            b1[i2],
            b1[j2],
        ) by {
            assert(b1[i2] == b[i2 + 1] && b1[j2] == b[j2 + 1]);
        }
        assert forall|t: Seq<u8>|
            #![trigger tokens_contain(a1, t)]
            #![trigger tokens_contain(b1, t)]
            tokens_contain(a1, t) <==> tokens_contain(b1, t) by {
            if tokens_contain(a1, t) {
                let m = choose|m: int| 0 <= m < a1.len() && a1[m] == t;
                assert(a1[m] == a[m + 1]);
                assert(lex_lt(a[0], t));
                assert(tokens_contain(a, t));
                assert(tokens_contain(b, t));
                let n = choose|n: int| 0 <= n < b.len() && b[n] == t;
                lemma_lex_lt_irrefl(t);
                assert(n > 0);
                assert(b1[n - 1] == t);
            }
            if tokens_contain(b1, t) {
                let m = choose|m: int| 0 <= m < b1.len() && b1[m] == t;
                assert(b1[m] == b[m + 1]);
                assert(lex_lt(b[0], t));
                assert(tokens_contain(b, t));
                assert(tokens_contain(a, t));
                let n = choose|n: int| 0 <= n < a.len() && a[n] == t;
                lemma_lex_lt_irrefl(t);
                assert(n > 0);
                assert(a1[n - 1] == t);
            }
        }
        lemma_sorted_canonical(a1, b1);
        assert forall|m: int| 0 <= m < a.len() implies a[m] == b[m] by {
            if m > 0 {
                assert(a[m] == a1[m - 1] && b[m] == b1[m - 1]);
            }
        }
        assert(a =~= b);
    }
}

/// Byte-wise equality of two slices, as equality of their views.
pub fn bytes_eq(a: &[u8], b: &[u8]) -> (r: bool)
    ensures
        r == (a@ == b@),
{
    if a.len() != b.len() {
        return false;
    }
    let mut i: usize = 0;
    while i < a.len()
        invariant
            a@.len() == b@.len(),
            0 <= i <= a@.len(),
            forall|j: int| 0 <= j < i ==> a@[j] == b@[j],
        decreases a@.len() - i,
    {
        if a[i] != b[i] {
            return false;
        }
        i += 1;
    }
    proof {
        assert(a@ =~= b@);
    }
    true
}

proof fn lemma_lex_skip_one(a: Seq<u8>, b: Seq<u8>, i: int)
    requires
        0 <= i < a.len(),
        0 <= i < b.len(),
        a[i] == b[i],
    ensures
        lex_lt(a.skip(i), b.skip(i)) == lex_lt(a.skip(i + 1), b.skip(i + 1)),
{
    assert(a.skip(i)[0] == a[i]);
    assert(b.skip(i)[0] == b[i]);
    assert(a.skip(i).drop_first() =~= a.skip(i + 1));
    assert(b.skip(i).drop_first() =~= b.skip(i + 1));
}

/// Byte-lexicographic strict comparison of two slices.
pub fn bytes_lt(a: &[u8], b: &[u8]) -> (r: bool)
    ensures
        r == lex_lt(a@, b@),
{
    let n: usize = if a.len() < b.len() {
        a.len()
    } else {
        b.len()
    };
    proof {
        assert(a@.skip(0) =~= a@);
        assert(b@.skip(0) =~= b@);
    }
    let mut i: usize = 0;
    while i < n
        invariant
            n == if a@.len() < b@.len() {
                a@.len()
            } else {
                b@.len()
            },
            0 <= i <= n,
            lex_lt(a@, b@) == lex_lt(a@.skip(i as int), b@.skip(i as int)),
        decreases n - i,
    {
        if a[i] < b[i] {
            proof {
                assert(a@.skip(i as int)[0] == a@[i as int]);
                assert(b@.skip(i as int)[0] == b@[i as int]);
            }
            return true;
        }
        if a[i] > b[i] {
            proof {
                assert(a@.skip(i as int)[0] == a@[i as int]);
                assert(b@.skip(i as int)[0] == b@[i as int]);
            }
            return false;
        }
        proof {
            lemma_lex_skip_one(a@, b@, i as int);
        }
        i += 1;
    }
    proof {
        if a@.len() <= b@.len() {
            assert(a@.skip(n as int).len() == 0);
        } else {
            assert(b@.skip(n as int).len() == 0);
        }
    }
    a.len() < b.len()
}

/// A capability token, compared by value; its model is its wire encoding.
pub struct Cap(pub String);

impl View for Cap {
    type V = Seq<u8>;

    open spec fn view(&self) -> Seq<u8> {
        vstd::utf8::encode_utf8(self.0@)
    }
}

impl Cap {
    pub fn new(token: String) -> (c: Cap)
        ensures
            c@ == vstd::utf8::encode_utf8(token@),
    {
        Cap(token)
    }

    /// The token's wire encoding.
    pub fn bytes(&self) -> (r: &[u8])
        ensures
            r@ == self@,
    {
        self.0.as_str().as_bytes()
    }

    pub fn eq_token(&self, other: &Cap) -> (r: bool)
        ensures
            r == (self@ == other@),
    {
        bytes_eq(self.bytes(), other.bytes())
    }
}

/// A deduplicated, byte-lexicographically sorted set of capability tokens.
pub struct CapSet {
    caps: Vec<Cap>,
}

impl View for CapSet {
    type V = Seq<Seq<u8>>;

    closed spec fn view(&self) -> Seq<Seq<u8>> {
        Seq::new(self.caps@.len(), |i: int| self.caps@[i]@)
    }
}

impl CapSet {
    /// Tokens are strictly increasing, hence pairwise distinct: the
    /// representation of a set of tokens is canonical.
    pub open spec fn wf(self) -> bool {
        sorted_tokens(self@)
    }

    pub open spec fn contains_token(self, t: Seq<u8>) -> bool {
        tokens_contain(self@, t)
    }

    /// The empty set; it requires nothing and is matched by every slave.
    pub fn empty() -> (r: CapSet)
        ensures
            r.wf(),
            r@.len() == 0,
    {
        CapSet { caps: Vec::new() }
    }

    /// Cardinality: the number of distinct tokens.
    pub fn len(&self) -> (n: usize)
        ensures
            n == self@.len(),
    {
        self.caps.len()
    }

    /// The `i`-th token in sorted order (deterministic iteration).
    pub fn token(&self, i: usize) -> (r: &Cap)
        requires
            i < self@.len(),
        ensures
            r@ == self@[i as int],
    {
        &self.caps[i]
    }

    pub fn contains(&self, t: &Cap) -> (r: bool)
        ensures
            r == self.contains_token(t@),
    {
        let mut i: usize = 0;
        while i < self.caps.len()
            invariant
                0 <= i <= self@.len(),
                forall|j: int| 0 <= j < i ==> self@[j] != t@,
            decreases self@.len() - i,
        {
            if bytes_eq(self.caps[i].bytes(), t.bytes()) {
                proof {
                    assert(self@[i as int] == t@);
                }
                return true;
            }
            i += 1;
        }
        false
    }

    /// Subset test: does `self` declare every token that `required` holds?
    /// `a.contains_all(b)` is true exactly when every token of `b` appears in
    /// `a`; an empty `b` is always contained.
    pub fn contains_all(&self, required: &CapSet) -> (r: bool)
        ensures
            r == tokens_subset(required@, self@),
    {
        let mut i: usize = 0;
        while i < required.caps.len()
            invariant
                0 <= i <= required@.len(),
                forall|j: int| 0 <= j < i ==> tokens_contain(self@, #[trigger] required@[j]),
            decreases required@.len() - i,
        {
            let present = self.contains(&required.caps[i]);
            if !present {
                proof {
                    assert(!tokens_contain(self@, required@[i as int]));
                }
                return false;
            }
            i += 1;
        }
        true
    }

    /// Insert one token, keeping the sorted, duplicate-free invariant; the
    /// set afterwards contains exactly the old tokens and the new one.
    pub fn insert(&mut self, cap: Cap)
        requires
            old(self).wf(),
        ensures
            final(self).wf(),
            forall|t: Seq<u8>|
                #![trigger final(self).contains_token(t)]
                #![trigger old(self).contains_token(t)]
                final(self).contains_token(t) <==> (old(self).contains_token(t) || t == cap@),
            final(self)@.len() <= old(self)@.len() + 1,
    {
        let n = self.caps.len();
        let mut pos: usize = 0;
        while pos < n && bytes_lt(self.caps[pos].bytes(), cap.bytes())
            invariant
                n == self@.len(),
                0 <= pos <= n,
                forall|j: int| 0 <= j < pos ==> lex_lt(#[trigger] self@[j], cap@),
            decreases n - pos,
        {
            pos += 1;
        }
        if pos < n {
            if bytes_eq(self.caps[pos].bytes(), cap.bytes()) {
                proof {
                    assert(self@[pos as int] == cap@);
                    assert(old(self).contains_token(cap@));
                }
                return;
            }
        }
        proof {
            if pos < n {
                lemma_lex_lt_total(self@[pos as int], cap@);
                assert(lex_lt(cap@, self@[pos as int]));
                assert forall|j: int| pos <= j < n implies lex_lt(cap@, #[trigger] self@[j]) by {
                    if j > pos {
                        lemma_lex_lt_trans(cap@, self@[pos as int], self@[j]);
                    }
                }
            }
        }
        let ghost before = self@;
        self.caps.insert(pos, cap);
        proof {
            assert(self@.len() == before.len() + 1);
            assert forall|i: int| 0 <= i < self@.len() implies #[trigger] self@[i] == (if i < pos {
                before[i]
            } else if i == pos {
                cap@
            } else {
                before[i - 1]
            }) by {
                assert(self@[i] == self.caps@[i]@);
            }
            assert forall|i: int, j: int| 0 <= i < j < self@.len() implies #[trigger] lex_lt(
                self@[i],
                self@[j],
            ) by {}
            assert forall|t: Seq<u8>| tokens_contain(self@, t) implies (tokens_contain(before, t)
                || t == cap@) by {
                let i = choose|i: int| 0 <= i < self@.len() && self@[i] == t;
                if i < pos {
                    assert(before[i] == t);
                } else if i > pos {
                    assert(before[i - 1] == t);
                }
            }
            assert forall|t: Seq<u8>| tokens_contain(before, t) implies tokens_contain(
                self@,
                t,
            ) by {
                let i = choose|i: int| 0 <= i < before.len() && before[i] == t;
                if i < pos {
                    assert(self@[i] == t);
                } else {
                    assert(self@[i + 1] == t);
                }
            }
            assert(tokens_contain(self@, cap@)) by {
                assert(self@[pos as int] == cap@);
            }
        }
    }

    /// Build a set from the token strings carried by an IDLE message:
    /// deduplicate and sort, so that equal declared sets always produce the
    /// same representation.
    pub fn from_tokens(tokens: Vec<String>) -> (r: CapSet)
        ensures
            r.wf(),
            forall|t: Seq<u8>|
                #![trigger r.contains_token(t)]
                r.contains_token(t) <==> (exists|i: int|
                    0 <= i < tokens@.len() && t == vstd::utf8::encode_utf8(#[trigger] tokens@[i]@)),
    {
        let ghost all = tokens@;
        let mut rest = tokens;
        let mut r = CapSet::empty();
        while rest.len() > 0
            invariant
                r.wf(),
                rest@.len() <= all.len(),
                rest@ == all.take(rest@.len() as int),
                forall|t: Seq<u8>|
                    #![trigger r.contains_token(t)]
                    r.contains_token(t) <==> (exists|i: int|
                        rest@.len() <= i < all.len() && t == vstd::utf8::encode_utf8(
                            #[trigger] all[i]@,
                        )),
            decreases rest@.len(),
        {
            let ghost k = rest@.len() as int - 1;
            if let Some(s) = rest.pop() {
                proof {
                    assert(s@ == all[k]@);
                }
                r.insert(Cap::new(s));
            }
        }
        proof {
            assert forall|t: Seq<u8>|
                (exists|i: int| 0 <= i < all.len() && t == vstd::utf8::encode_utf8(#[trigger] all[i]@))
                    implies r.contains_token(t) by {}
        }
        r
    }

    /// Two well-formed capability sets with the same members are equal
    /// value for value, so `equals` decides exactly membership equality and
    /// cardinality is a function of the members alone.
    pub proof fn lemma_canonical(a: CapSet, b: CapSet)
        requires
            a.wf(),
            b.wf(),
            forall|t: Seq<u8>|
                #![trigger a.contains_token(t)]
                #![trigger b.contains_token(t)]
                a.contains_token(t) <==> b.contains_token(t),
        ensures
            a@ == b@,
    {
        assert forall|t: Seq<u8>|
            #![trigger tokens_contain(a@, t)]
            #![trigger tokens_contain(b@, t)]
            tokens_contain(a@, t) <==> tokens_contain(b@, t) by {
            assert(a.contains_token(t) <==> b.contains_token(t));
        }
        lemma_sorted_canonical(a@, b@);
    }

    /// Every token a capability set can hold is the UTF-8 encoding of its
    /// string, so it is valid UTF-8 on the wire.
    pub proof fn lemma_tokens_valid_utf8(self)
        ensures
            forall|i: int| 0 <= i < self@.len() ==> vstd::utf8::valid_utf8(#[trigger] self@[i]),
    {
        assert forall|i: int| 0 <= i < self@.len() implies vstd::utf8::valid_utf8(
            #[trigger] self@[i],
        ) by {
            vstd::utf8::encode_utf8_valid_utf8(self.caps@[i].0@);
            assert(self@[i] == vstd::utf8::encode_utf8(self.caps@[i].0@));
        }
    }

    /// Set equality: same tokens in the same (canonical) order.
    pub fn equals(&self, other: &CapSet) -> (r: bool)
        ensures
            r == (self@ == other@),
    {
        if self.caps.len() != other.caps.len() {
            return false;
        }
        let mut i: usize = 0;
        while i < self.caps.len()
            invariant
                self@.len() == other@.len(),
                0 <= i <= self@.len(),
                forall|j: int| 0 <= j < i ==> self@[j] == other@[j],
            decreases self@.len() - i,
        {
            let same = bytes_eq(self.caps[i].bytes(), other.caps[i].bytes());
            if !same {
                proof {
                    assert(self@[i as int] != other@[i as int]);
                }
                return false;
            }
            i += 1;
        }
        proof {
            assert(self@ =~= other@);
        }
        true
    }
}

} // verus!
