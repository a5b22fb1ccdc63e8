//! Bidirectional token/id mapping with dense, append-only id assignment.

use vstd::prelude::*;

verus! {

/// Index of the first occurrence of `t` in `s`; meaningful only when
/// `s.contains(t)` holds.
pub open spec fn token_index(s: Seq<char>, t: char) -> int
    decreases s.len(),
{
    if s.len() == 0 {
        0
    } else if s[0] == t {
        0
    } else {
        1 + token_index(s.drop_first(), t)
    }
}

/// When `t` occurs in `s`, `token_index` is a valid index of `t` and
/// everything before it differs from `t`.
pub proof fn lemma_token_index_spec(s: Seq<char>, t: char)
    requires
        s.contains(t),
    ensures
        0 <= token_index(s, t) < s.len(),
        s[token_index(s, t)] == t,
        forall|j: int| 0 <= j < token_index(s, t) ==> s[j] != t,
    decreases s.len(),
{
    if s[0] == t {
    } else {
        assert(s.drop_first().contains(t)) by {
            let i = choose|i: int| 0 <= i < s.len() && s[i] == t;
            assert(s.drop_first()[i - 1] == t);
        }
        lemma_token_index_spec(s.drop_first(), t);
        let k = token_index(s, t);
        assert(s[k] == s.drop_first()[k - 1]);
        assert forall|j: int| 0 <= j < k implies s[j] != t by {
            if j > 0 {
                assert(s[j] == s.drop_first()[j - 1]);
            }
        }
    }
}

/// Any index that is a first occurrence of `t` in `s` equals `token_index`.
pub proof fn lemma_token_index_unique(s: Seq<char>, t: char, i: int)
    requires
        0 <= i < s.len(),
        s[i] == t,
        forall|j: int| 0 <= j < i ==> s[j] != t,
    ensures
        token_index(s, t) == i,
{
    assert(s.contains(t));
    lemma_token_index_spec(s, t);
    let k = token_index(s, t);
    if k < i {
        assert(s[k] != t);
    }
    if i < k {
        assert(s[i] != t);
    }
}

/// In a duplicate-free vocabulary, the position of a token is its index.
pub proof fn lemma_token_index_distinct(v: Seq<char>, j: int)
    requires
        v.no_duplicates(),
        0 <= j < v.len(),
    ensures
        token_index(v, v[j]) == j,
{
    assert(v.contains(v[j]));
    lemma_token_index_spec(v, v[j]);
    let k = token_index(v, v[j]);
    if k != j {
        assert(v[k] == v[j]);
    }
}

/// Extending a vocabulary does not move the tokens it already holds.
pub proof fn lemma_token_index_prefix(v: Seq<char>, w: Seq<char>, t: char)
    requires
        v.is_prefix_of(w),
        v.contains(t),
    ensures
        token_index(w, t) == token_index(v, t),
{
    lemma_token_index_spec(v, t);
    let i = token_index(v, t);
    assert(w[i] == t);
    assert(forall|j: int| 0 <= j < i ==> w[j] == v[j] && w[j] != t);
    lemma_token_index_unique(w, t, i);
}

/// Bijective mapping between tokens and dense integer ids.
///
/// Ids are consecutive integers starting at 0, assigned in first-seen
/// order; the token with id `i` is the `i`-th distinct token added.
pub struct Vocabulary {
    tokens: Vec<char>,
}

impl View for Vocabulary {
    type V = Seq<char>;

    closed spec fn view(&self) -> Seq<char> {
        self.tokens@
    }
}

impl Vocabulary {
    /// A well-formed vocabulary never holds the same token twice.
    pub open spec fn wf(&self) -> bool {
        self@.no_duplicates()
    }

    /// Creates an empty vocabulary.
    pub fn new() -> (v: Vocabulary)
        ensures
            v@ == Seq::<char>::empty(),
            v.wf(),
    {
        Vocabulary { tokens: Vec::new() }
    }

    /// Number of distinct tokens added so far.
    pub fn len(&self) -> (n: usize)
        ensures
            n == self@.len(),
    {
        self.tokens.len()
    }

    /// Whether `token` has been added.
    pub fn has_token(&self, token: char) -> (r: bool)
        ensures
            r == self@.contains(token),
    {
        let mut i: usize = 0;
        while i < self.tokens.len()
            invariant
                0 <= i <= self.tokens@.len(),
                forall|j: int| 0 <= j < i ==> self.tokens@[j] != token,
            decreases self.tokens@.len() - i,
        {
            if self.tokens[i] == token {
                assert(self@.contains(token));
                return true;
            }
            i = i + 1;
        }
        false
    }

    /// The id assigned to `token`, or `None` when it was never added.
    pub fn token_to_id(&self, token: char) -> (r: Option<usize>)
        ensures
            r is Some <==> self@.contains(token),
            r is Some ==> r->0 == token_index(self@, token) && r->0 < self@.len()
                && self@[r->0 as int] == token,
    {
        let mut i: usize = 0;
        while i < self.tokens.len()
            invariant
                0 <= i <= self.tokens@.len(),
                forall|j: int| 0 <= j < i ==> self.tokens@[j] != token,
            decreases self.tokens@.len() - i,
        {
            if self.tokens[i] == token {
                proof {
                    lemma_token_index_unique(self@, token, i as int);
                }
                return Some(i);
            }
            i = i + 1;
        }
        None
    }

    /// The token that was assigned `id`, or `None` when no token has it.
    pub fn id_to_token(&self, id: usize) -> (r: Option<char>)
        ensures
            r == (if id < self@.len() {
                Some(self@[id as int])
            } else {
                None
            }),
    {
        if id < self.tokens.len() {
            Some(self.tokens[id])
        } else {
            None
        }
    }

    /// Adds `token` if absent and returns its id; idempotent.
    ///
    /// A new token gets the next free id, which equals the number of
    /// tokens added before it: ids are dense and first-seen ordered.
    pub fn add_token(&mut self, token: char) -> (id: usize)
        requires
            old(self).wf(),
            old(self)@.contains(token) || old(self)@.len() < usize::MAX,
        ensures
            final(self).wf(),
            old(self)@.contains(token) ==> {
                &&& final(self)@ == old(self)@
                &&& id == token_index(old(self)@, token)
            },
            !old(self)@.contains(token) ==> {
                &&& final(self)@ == old(self)@.push(token)
                &&& id == old(self)@.len()
            },
    {
        let found = self.token_to_id(token);
        match found {
            Some(id) => id,
            None => {
                let id = self.tokens.len();
                self.tokens.push(token);
                id
            },
        }
    }
}

/// Law: for every token `t` a vocabulary holds, mapping `t` to its id
/// and that id back to a token yields `t` again.
pub proof fn lemma_vocabulary_round_trip(v: Seq<char>, t: char)
    requires
        v.contains(t),
    ensures
        0 <= token_index(v, t) < v.len(),
        v[token_index(v, t)] == t,
{
    lemma_token_index_spec(v, t);
}

} // verus!
