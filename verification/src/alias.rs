use vstd::prelude::*;

use crate::text::{lex_lt, lower, lowercase, str_eq, str_lt};

verus! {

/// One entry of an alias dataset: a canonical model name and the alias
/// spellings that refer to it.
pub struct AliasEntry {
    pub canonical: String,
    pub aliases: Vec<String>,
}

/// The mathematical content of the identity map: a sequence of
/// (alias, canonical) pairs, in insertion order.
pub type AliasPairs = Seq<(Seq<char>, Seq<char>)>;

/// The views of the pairs a vector holds.
pub open spec fn pairs_view(v: Seq<(String, String)>) -> AliasPairs {
    v.map_values(|p: (String, String)| (p.0@, p.1@))
}

/// No alias occurs twice as a key.
pub open spec fn keys_unique(m: AliasPairs) -> bool {
    forall|i: int, j: int| 0 <= i < j < m.len() ==> (#[trigger] m[i]).0 != (#[trigger] m[j]).0
}

/// Every alias and every canonical name in the map is stored lowercase.
pub open spec fn all_lower(m: AliasPairs) -> bool {
    forall|i: int|
        0 <= i < m.len() ==> lower((#[trigger] m[i]).0) == m[i].0 && lower(m[i].1) == m[i].1
}

/// The canonical name an alias is bound to, if any.
pub open spec fn lookup(m: AliasPairs, k: Seq<char>) -> Option<Seq<char>>
    decreases m.len(),
{
    if m.len() == 0 {
        None
    } else if m[0].0 == k {
        Some(m[0].1)
    } else {
        lookup(m.drop_first(), k)
    }
}

/// Bind an alias to a canonical name: an existing binding of the same alias
/// is overwritten in place, a new alias is appended at the end.
pub open spec fn upsert(m: AliasPairs, k: Seq<char>, v: Seq<char>) -> AliasPairs
    decreases m.len(),
{
    if m.len() == 0 {
        seq![(k, v)]
    } else if m[0].0 == k {
        seq![(k, v)] + m.drop_first()
    } else {
        seq![m[0]] + upsert(m.drop_first(), k, v)
    }
}

/// Bind every alias of the list, lowercased, to the canonical name `c`,
/// in order.
pub open spec fn apply_aliases(m: AliasPairs, c: Seq<char>, aliases: Seq<Seq<char>>) -> AliasPairs
    decreases aliases.len(),
{
    if aliases.len() == 0 {
        m
    } else {
        apply_aliases(upsert(m, lower(aliases[0]), c), c, aliases.drop_first())
    }
}

/// The alias views of one dataset entry.
pub open spec fn entry_aliases(e: AliasEntry) -> Seq<Seq<char>> {
    e.aliases@.map_values(|a: String| a@)
}

/// Merge one dataset entry into the map: the canonical name is bound to
/// itself first, then each alias is bound to it, all lowercased.
pub open spec fn apply_entry(m: AliasPairs, e: AliasEntry) -> AliasPairs {
    let c = lower(e.canonical@);
    apply_aliases(upsert(m, c, c), c, entry_aliases(e))
}

/// Merge a whole dataset, entry by entry, in order. On a key collision the
/// later binding wins.
pub open spec fn build_pairs(m: AliasPairs, entries: Seq<AliasEntry>) -> AliasPairs
    decreases entries.len(),
{
    if entries.len() == 0 {
        m
    } else {
        build_pairs(apply_entry(m, entries[0]), entries.drop_first())
    }
}

/// The identity map of the resolver: alias spelling -> canonical name,
/// keys unique, everything lowercase, immutable once built.
pub struct AliasMap {
    entries: Vec<(String, String)>,
}

impl View for AliasMap {
    type V = AliasPairs;

    closed spec fn view(&self) -> AliasPairs {
        pairs_view(self.entries@)
    }
}

impl AliasMap {
    /// The internal invariant, which every value of the type carries:
    /// unique keys, everything lowercase.
    #[verifier::type_invariant]
    pub open spec fn wf(&self) -> bool {
        keys_unique(self@) && all_lower(self@)
    }
}

/// Upserting keeps keys unique.
proof fn lemma_upsert_keys_unique(m: AliasPairs, k: Seq<char>, v: Seq<char>)
    requires
        keys_unique(m),
    ensures
        keys_unique(upsert(m, k, v)),
        forall|i: int|
            0 <= i < upsert(m, k, v).len() ==> ((#[trigger] upsert(m, k, v)[i]).0 == k || m.contains(
                upsert(m, k, v)[i],
            )),
    decreases m.len(),
{
    if m.len() == 0 {
    } else if m[0].0 == k {
        assert(upsert(m, k, v) =~= seq![(k, v)] + m.drop_first());
        assert forall|i: int, j: int|
            0 <= i < j < upsert(m, k, v).len() implies (#[trigger] upsert(m, k, v)[i]).0 != (
        #[trigger] upsert(m, k, v)[j]).0 by {
            if i == 0 {
                assert(upsert(m, k, v)[j] == m[j]);
                assert(m[0].0 != m[j].0);
            } else {
                assert(upsert(m, k, v)[i] == m[i]);
                assert(upsert(m, k, v)[j] == m[j]);
            }
        }
        assert forall|i: int| 0 <= i < upsert(m, k, v).len() implies ((#[trigger] upsert(
            m,
            k,
            v,
        )[i]).0 == k || m.contains(upsert(m, k, v)[i])) by {
            if i > 0 {
                assert(upsert(m, k, v)[i] == m[i]);
            }
        }
    } else {
        lemma_upsert_keys_unique(m.drop_first(), k, v);
        let u = upsert(m, k, v);
        let ud = upsert(m.drop_first(), k, v);
        assert(u =~= seq![m[0]] + ud);
        assert forall|i: int, j: int| 0 <= i < j < u.len() implies (#[trigger] u[i]).0 != (
        #[trigger] u[j]).0 by {
            if i == 0 {
                assert(u[j] == ud[j - 1]);
                if ud[j - 1].0 == k {
                } else {
                    assert(m.drop_first().contains(ud[j - 1]));
                    let w = choose|w: int|
                        0 <= w < m.drop_first().len() && m.drop_first()[w] == ud[j - 1];
                    assert(m[w + 1] == ud[j - 1]);
                }
            } else {
                assert(u[i] == ud[i - 1]);
                assert(u[j] == ud[j - 1]);
            }
        }
        assert forall|i: int| 0 <= i < u.len() implies ((#[trigger] u[i]).0 == k || m.contains(
            u[i],
        )) by {
            if i == 0 {
                assert(m.contains(m[0]));
            } else {
                assert(u[i] == ud[i - 1]);
                if ud[i - 1].0 != k {
                    assert(m.drop_first().contains(ud[i - 1]));
                    let w = choose|w: int|
                        0 <= w < m.drop_first().len() && m.drop_first()[w] == ud[i - 1];
                    assert(m[w + 1] == ud[i - 1]);
                }
            }
        }
    }
}

/// Upserting a lowercase binding keeps the map lowercase.
proof fn lemma_upsert_all_lower(m: AliasPairs, k: Seq<char>, v: Seq<char>)
    requires
        all_lower(m),
        lower(k) == k,
        lower(v) == v,
    ensures
        all_lower(upsert(m, k, v)),
    decreases m.len(),
{
    if m.len() == 0 {
    } else if m[0].0 == k {
        let u = upsert(m, k, v);
        assert forall|i: int| 0 <= i < u.len() implies lower((#[trigger] u[i]).0) == u[i].0
            && lower(u[i].1) == u[i].1 by {
            if i > 0 {
                assert(u[i] == m[i]);
            }
        }
    } else {
        lemma_upsert_all_lower(m.drop_first(), k, v);
        let u = upsert(m, k, v);
        let ud = upsert(m.drop_first(), k, v);
        assert forall|i: int| 0 <= i < u.len() implies lower((#[trigger] u[i]).0) == u[i].0
            && lower(u[i].1) == u[i].1 by {
            if i > 0 {
                assert(u[i] == ud[i - 1]);
            }
        }
    }
}

/// When the key is already bound, upserting overwrites that binding in place.
proof fn lemma_upsert_update(m: AliasPairs, k: Seq<char>, v: Seq<char>, i: int)
    requires
        0 <= i < m.len(),
        m[i].0 == k,
        forall|j: int| 0 <= j < i ==> (#[trigger] m[j]).0 != k,
    ensures
        upsert(m, k, v) == m.update(i, (k, v)),
    decreases i,
{
    if i == 0 {
        assert(upsert(m, k, v) =~= m.update(0, (k, v)));
    } else {
        assert(m[0].0 != k);
        lemma_upsert_update(m.drop_first(), k, v, i - 1);
        assert(upsert(m, k, v) =~= m.update(i, (k, v)));
    }
}

/// When the key is not bound yet, upserting appends the new binding.
proof fn lemma_upsert_push(m: AliasPairs, k: Seq<char>, v: Seq<char>)
    requires
        forall|j: int| 0 <= j < m.len() ==> (#[trigger] m[j]).0 != k,
    ensures
        upsert(m, k, v) == m.push((k, v)),
    decreases m.len(),
{
    if m.len() == 0 {
        assert(upsert(m, k, v) =~= m.push((k, v)));
    } else {
        lemma_upsert_push(m.drop_first(), k, v);
        assert(upsert(m, k, v) =~= m.push((k, v)));
    }
}

/// Bind an alias to a canonical name in the backing vector, overwriting the
/// first binding of the same alias if there is one.
fn map_upsert(v: &mut Vec<(String, String)>, k: String, val: String)
    ensures
        pairs_view(final(v)@) == upsert(pairs_view(old(v)@), k@, val@),
{
    let ghost m = pairs_view(v@);
    let ghost kv = k@;
    let ghost vv = val@;
    let mut i: usize = 0;
    while i < v.len()
        invariant
            m == pairs_view(v@),
            m == pairs_view(old(v)@),
            i <= v@.len(),
            k@ == kv,
            val@ == vv,
            forall|j: int| 0 <= j < i ==> (#[trigger] m[j]).0 != kv,
        decreases v@.len() - i,
    {
        proof {
            assert(m.len() == v@.len());
            assert(m[i as int] == (v@[i as int].0@, v@[i as int].1@));
        }
        let p = &v[i];
        let hit = str_eq(p.0.as_str(), k.as_str());
        proof {
            assert(hit ==> m[i as int].0 == kv);
        }
        if hit {
            v[i] = (k, val);
            proof {
                lemma_upsert_update(m, kv, vv, i as int);
                assert(pairs_view(v@) =~= m.update(i as int, (kv, vv)));
            }
            return ;
        }
        i = i + 1;
    }
    v.push((k, val));
    proof {
        lemma_upsert_push(m, kv, vv);
        assert(pairs_view(v@) =~= m.push((kv, vv)));
    }
}

/// Folding one more alias onto the map.
proof fn lemma_aliases_snoc(m: AliasPairs, c: Seq<char>, s: Seq<Seq<char>>, j: int)
    requires
        0 <= j < s.len(),
    ensures
        apply_aliases(m, c, s.take(j + 1)) == upsert(
            apply_aliases(m, c, s.take(j)),
            lower(s[j]),
            c,
        ),
    decreases j,
{
    if j == 0 {
        assert(s.take(1) =~= seq![s[0]]);
        assert(s.take(0) =~= Seq::<Seq<char>>::empty());
        assert(s.take(1)[0] == s[0]);
        assert(s.take(1).drop_first() =~= Seq::<Seq<char>>::empty());
        assert(apply_aliases(m, c, s.take(0)) == m);
        assert(apply_aliases(m, c, s.take(1)) == apply_aliases(
            upsert(m, lower(s[0]), c),
            c,
            s.take(1).drop_first(),
        ));
    } else {
        let m1 = upsert(m, lower(s[0]), c);
        assert(s.take(j + 1).drop_first() =~= s.drop_first().take(j));
        assert(s.take(j).drop_first() =~= s.drop_first().take(j - 1));
        lemma_aliases_snoc(m1, c, s.drop_first(), j - 1);
        assert(s.drop_first()[j - 1] == s[j]);
    }
}

/// Folding one more dataset entry onto the map.
proof fn lemma_build_snoc(m: AliasPairs, s: Seq<AliasEntry>, i: int)
    requires
        0 <= i < s.len(),
    ensures
        build_pairs(m, s.take(i + 1)) == apply_entry(build_pairs(m, s.take(i)), s[i]),
    decreases i,
{
    if i == 0 {
        assert(s.take(1) =~= seq![s[0]]);
        assert(s.take(0) =~= Seq::<AliasEntry>::empty());
        assert(s.take(1)[0] == s[0]);
        assert(s.take(1).drop_first() =~= Seq::<AliasEntry>::empty());
        assert(build_pairs(m, s.take(0)) == m);
        assert(build_pairs(m, s.take(1)) == build_pairs(
            apply_entry(m, s.take(1)[0]),
            s.take(1).drop_first(),
        ));
    } else {
        let m1 = apply_entry(m, s[0]);
        assert(s.take(i + 1).drop_first() =~= s.drop_first().take(i));
        assert(s.take(i).drop_first() =~= s.drop_first().take(i - 1));
        lemma_build_snoc(m1, s.drop_first(), i - 1);
        assert(s.drop_first()[i - 1] == s[i]);
    }
}

impl AliasMap {
    /// Build the identity map from a merged list of dataset entries, in
    /// order: within an entry the canonical name is bound to itself and then
    /// each alias to it; across the list a later binding of the same alias
    /// overwrites an earlier one. Every key and value is stored lowercase.
    pub fn from_entries(entries: &Vec<AliasEntry>) -> (r: AliasMap)
        ensures
            r@ == build_pairs(Seq::<(Seq<char>, Seq<char>)>::empty(), entries@),
            r.wf(),
    {
        let ghost empty_m = Seq::<(Seq<char>, Seq<char>)>::empty();
        let mut v: Vec<(String, String)> = Vec::new();
        let mut i: usize = 0;
        proof {
            assert(pairs_view(v@) =~= empty_m);
            assert(entries@.take(0) =~= Seq::<AliasEntry>::empty());
        }
        while i < entries.len()
            invariant
                i <= entries@.len(),
                pairs_view(v@) == build_pairs(empty_m, entries@.take(i as int)),
                keys_unique(pairs_view(v@)),
                all_lower(pairs_view(v@)),
            decreases entries@.len() - i,
        {
            let e = &entries[i];
            let c = lowercase(e.canonical.as_str());
            proof {
                crate::text::lemma_lower_idempotent(e.canonical@);
            }
            let ghost cv = c@;
            let ghost m0 = pairs_view(v@);
            map_upsert(&mut v, c.clone(), c.clone());
            proof {
                lemma_upsert_keys_unique(m0, cv, cv);
                lemma_upsert_all_lower(m0, cv, cv);
            }
            let ghost m1 = pairs_view(v@);
            let ghost avs = entry_aliases(entries@[i as int]);
            let mut j: usize = 0;
            proof {
                assert(avs.take(0) =~= Seq::<Seq<char>>::empty());
            }
            while j < e.aliases.len()
                invariant
                    j <= e.aliases@.len(),
                    avs == entry_aliases(entries@[i as int]),
                    avs.len() == e.aliases@.len(),
                    forall|t: int| 0 <= t < avs.len() ==> avs[t] == e.aliases@[t]@,
                    c@ == cv,
                    cv == lower(cv),
                    pairs_view(v@) == apply_aliases(m1, cv, avs.take(j as int)),
                    keys_unique(pairs_view(v@)),
                    all_lower(pairs_view(v@)),
                decreases e.aliases@.len() - j,
            {
                let a = lowercase(e.aliases[j].as_str());
                proof {
                    crate::text::lemma_lower_idempotent(e.aliases@[j as int]@);
                }
                let ghost av = a@;
                let ghost mj = pairs_view(v@);
                map_upsert(&mut v, a, c.clone());
                proof {
                    lemma_upsert_keys_unique(mj, av, cv);
                    lemma_upsert_all_lower(mj, av, cv);
                    lemma_aliases_snoc(m1, cv, avs, j as int);
                }
                j = j + 1;
            }
            proof {
                assert(avs.take(j as int) =~= avs);
                lemma_build_snoc(empty_m, entries@, i as int);
            }
            i = i + 1;
        }
        proof {
            assert(entries@.take(i as int) =~= entries@);
        }
        let r = AliasMap { entries: v };
        r
    }
}

/// The characters that may follow an alias in a longer query for the alias
/// still to count as a match. A dot is deliberately not one of them: it
/// marks a distinct version.
pub open spec fn is_sep(c: char) -> bool {
    c == '-' || c == '(' || c == ' '
}

/// Whether an alias is a prefix-match candidate for the (lowercased) query:
/// the query is strictly longer, starts with the alias, and the character
/// right after the alias is a separator.
pub open spec fn is_prefix_candidate(alias: Seq<char>, q: Seq<char>) -> bool {
    q.len() > alias.len() && crate::text::is_prefix(alias, q) && is_sep(q[alias.len() as int])
}

/// Whether a new candidate alias beats the best one found so far: it is
/// longer, or of equal length and lexicographically smaller.
pub open spec fn prefix_better(alias: Seq<char>, best: Option<(Seq<char>, Seq<char>)>) -> bool {
    match best {
        None => true,
        Some(b) => alias.len() > b.0.len() || (alias.len() == b.0.len() && lex_lt(alias, b.0)),
    }
}

/// The best prefix-match candidate among the first `n` map entries: the one
/// with the longest alias, ties broken towards the lexicographically
/// smallest alias.
pub open spec fn best_prefix_upto(m: AliasPairs, q: Seq<char>, n: int) -> Option<
    (Seq<char>, Seq<char>),
>
    decreases n,
{
    if n <= 0 {
        None
    } else {
        let prev = best_prefix_upto(m, q, n - 1);
        if is_prefix_candidate(m[n - 1].0, q) && prefix_better(m[n - 1].0, prev) {
            Some((m[n - 1].0, m[n - 1].1))
        } else {
            prev
        }
    }
}

/// The canonical name the prefix-match step yields for a lowercased query.
pub open spec fn prefix_match_spec(m: AliasPairs, q: Seq<char>) -> Option<Seq<char>> {
    match best_prefix_upto(m, q, m.len() as int) {
        None => None,
        Some(b) => Some(b.1),
    }
}

/// What resolution returns: the exact binding of the lowercased name if
/// there is one, else the best prefix match, else the lowercased name
/// itself.
pub open spec fn resolve_spec(m: AliasPairs, name: Seq<char>) -> Seq<char> {
    let low = lower(name);
    match lookup(m, low) {
        Some(c) => c,
        None => match prefix_match_spec(m, low) {
            Some(c) => c,
            None => low,
        },
    }
}

/// A miss on the first `i` entries pushes the whole lookup past them.
proof fn lemma_lookup_skip(m: AliasPairs, k: Seq<char>, i: int)
    requires
        0 <= i <= m.len(),
        forall|j: int| 0 <= j < i ==> (#[trigger] m[j]).0 != k,
    ensures
        lookup(m, k) == lookup(m.skip(i), k),
    decreases i,
{
    if i > 0 {
        assert(m.drop_first() =~= m.skip(1));
        lemma_lookup_skip(m.skip(1), k, i - 1);
        assert(m.skip(1).skip(i - 1) =~= m.skip(i));
    } else {
        assert(m.skip(0) =~= m);
    }
}

impl AliasMap {
    /// Try prefix matching the lowercased query against every alias in the
    /// map: among the candidates (see `is_prefix_candidate`) the longest
    /// alias wins, ties go to the lexicographically smallest alias.
    pub fn prefix_match(&self, lower_name: &str) -> (r: Option<String>)
        ensures
            match r {
                Some(c) => prefix_match_spec(self@, lower_name@) == Some(c@),
                None => prefix_match_spec(self@, lower_name@) is None,
            },
    {
        let ghost m = self@;
        let n = self.entries.len();
        let mut best: Option<usize> = None;
        let mut i: usize = 0;
        while i < n
            invariant
                m == self@,
                m == pairs_view(self.entries@),
                n == self.entries@.len(),
                i <= n,
                match best {
                    None => best_prefix_upto(m, lower_name@, i as int) is None,
                    Some(b) => b < i && best_prefix_upto(m, lower_name@, i as int) == Some(
                        (m[b as int].0, m[b as int].1),
                    ),
                },
            decreases n - i,
        {
            let p = &self.entries[i];
            proof {
                assert(m[i as int] == (self.entries@[i as int].0@, self.entries@[i as int].1@));
            }
            let al = p.0.unicode_len();
            let ql = lower_name.unicode_len();
            let mut cand = false;
            if ql > al && crate::text::str_is_prefix(p.0.as_str(), lower_name) {
                let nc = lower_name.get_char(al);
                if nc == '-' || nc == '(' || nc == ' ' {
                    cand = true;
                }
            }
            proof {
                assert(cand == is_prefix_candidate(m[i as int].0, lower_name@));
            }
            if cand {
                let take = match best {
                    None => true,
                    Some(b) => {
                        proof {
                            assert(m[b as int] == (
                                self.entries@[b as int].0@,
                                self.entries@[b as int].1@,
                            ));
                        }
                        let q = &self.entries[b];
                        let bl = q.0.unicode_len();
                        if al > bl {
                            true
                        } else if al == bl {
                            str_lt(p.0.as_str(), q.0.as_str())
                        } else {
                            false
                        }
                    },
                };
                proof {
                    assert(take == prefix_better(
                        m[i as int].0,
                        best_prefix_upto(m, lower_name@, i as int),
                    ));
                }
                if take {
                    best = Some(i);
                }
            }
            i = i + 1;
        }
        match best {
            None => None,
            Some(b) => {
                let q = &self.entries[b];
                proof {
                    assert(m[b as int] == (
                        self.entries@[b as int].0@,
                        self.entries@[b as int].1@,
                    ));
                }
                Some(q.1.clone())
            },
        }
    }

    /// Resolve a user-provided model name to its canonical form: lowercase
    /// it, take its exact binding if there is one, else the best prefix
    /// match, else return the lowercased input unchanged. Total, never
    /// fails.
    pub fn resolve(&self, name: &str) -> (r: String)
        ensures
            r@ == resolve_spec(self@, name@),
    {
        let low = lowercase(name);
        match self.lookup_exec(low.as_str()) {
            Some(c) => c.clone(),
            None => match self.prefix_match(low.as_str()) {
                Some(c) => c,
                None => low,
            },
        }
    }

    /// Whether a source-specific model name resolves to the given canonical
    /// name (compared lowercased).
    pub fn matches(&self, source_name: &str, canonical: &str) -> (r: bool)
        ensures
            r == (resolve_spec(self@, source_name@) == lower(canonical@)),
    {
        let resolved = self.resolve(source_name);
        let low = lowercase(canonical);
        str_eq(resolved.as_str(), low.as_str())
    }
}

/// A successful lookup returns a binding the map holds.
proof fn lemma_lookup_some_contains(m: AliasPairs, k: Seq<char>)
    requires
        lookup(m, k) is Some,
    ensures
        m.contains((k, lookup(m, k)->Some_0)),
    decreases m.len(),
{
    if m.len() > 0 {
        if m[0].0 == k {
            assert(m[0] == (k, lookup(m, k)->Some_0));
        } else {
            lemma_lookup_some_contains(m.drop_first(), k);
            let v = lookup(m.drop_first(), k)->Some_0;
            let w = choose|w: int|
                0 <= w < m.drop_first().len() && m.drop_first()[w] == (k, v);
            assert(m[w + 1] == (k, v));
        }
    }
}

/// With unique keys, a binding the map holds is what lookup returns.
proof fn lemma_contains_lookup(m: AliasPairs, k: Seq<char>, v: Seq<char>)
    requires
        keys_unique(m),
        m.contains((k, v)),
    ensures
        lookup(m, k) == Some(v),
    decreases m.len(),
{
    let w = choose|w: int| 0 <= w < m.len() && m[w] == (k, v);
    if w == 0 {
    } else {
        assert(m[0].0 != m[w].0);
        assert(m.drop_first()[w - 1] == (k, v));
        assert(m.drop_first().contains((k, v)));
        assert(keys_unique(m.drop_first())) by {
            assert forall|i: int, j: int|
                0 <= i < j < m.drop_first().len() implies (#[trigger] m.drop_first()[i]).0 != (
            #[trigger] m.drop_first()[j]).0 by {
                assert(m.drop_first()[i] == m[i + 1]);
                assert(m.drop_first()[j] == m[j + 1]);
            }
        }
        lemma_contains_lookup(m.drop_first(), k, v);
    }
}

/// A best prefix candidate is a binding the map holds, and it is a
/// candidate.
proof fn lemma_best_prefix_contains(m: AliasPairs, q: Seq<char>, n: int)
    requires
        0 <= n <= m.len(),
        best_prefix_upto(m, q, n) is Some,
    ensures
        m.contains(best_prefix_upto(m, q, n)->Some_0),
        is_prefix_candidate((best_prefix_upto(m, q, n)->Some_0).0, q),
    decreases n,
{
    let b = best_prefix_upto(m, q, n)->Some_0;
    if n > 0 {
        let prev = best_prefix_upto(m, q, n - 1);
        if is_prefix_candidate(m[n - 1].0, q) && prefix_better(m[n - 1].0, prev) {
            assert(m[n - 1] == b);
        } else {
            lemma_best_prefix_contains(m, q, n - 1);
        }
    }
}

/// Longest-prefix-wins: every prefix-match candidate in the map is at most
/// as long as the alias the prefix match settles on, and among the
/// candidates of that length the chosen alias is the lexicographically
/// smallest.
pub proof fn lemma_prefix_match_longest(m: AliasPairs, q: Seq<char>, n: int)
    requires
        0 <= n <= m.len(),
    ensures
        match best_prefix_upto(m, q, n) {
            Some(b) => forall|i: int|
                0 <= i < n && is_prefix_candidate((#[trigger] m[i]).0, q) ==> (m[i].0.len()
                    < b.0.len() || (m[i].0.len() == b.0.len() && !lex_lt(m[i].0, b.0))),
            None => forall|i: int| 0 <= i < n ==> !is_prefix_candidate((#[trigger] m[i]).0, q),
        },
    decreases n,
{
    if n > 0 {
        lemma_prefix_match_longest(m, q, n - 1);
        let prev = best_prefix_upto(m, q, n - 1);
        let cur = best_prefix_upto(m, q, n);
        if cur is Some {
            let b = cur->Some_0;
            assert forall|i: int|
                0 <= i < n && is_prefix_candidate((#[trigger] m[i]).0, q) implies (m[i].0.len()
                    < b.0.len() || (m[i].0.len() == b.0.len() && !lex_lt(m[i].0, b.0))) by {
                if i == n - 1 {
                    if is_prefix_candidate(m[n - 1].0, q) && prefix_better(m[n - 1].0, prev) {
                        crate::text::lemma_lex_lt_irrefl(b.0);
                    }
                } else {
                    if is_prefix_candidate(m[n - 1].0, q) && prefix_better(m[n - 1].0, prev) {
                        let p = prev->Some_0;
                        if m[i].0.len() == b.0.len() && lex_lt(m[i].0, b.0) && lex_lt(b.0, p.0) {
                            crate::text::lemma_lex_lt_trans(m[i].0, b.0, p.0);
                        }
                    }
                }
            }
        }
    }
}

/// Version-dot exclusion: a query that continues an alias with a dot — a
/// distinct version — is never a prefix-match candidate for that alias,
/// while one that continues it with a hyphen, a parenthesis or a space is.
pub proof fn lemma_version_dot_excluded(alias: Seq<char>, q: Seq<char>)
    requires
        q.len() > alias.len(),
        q.subrange(0, alias.len() as int) == alias,
    ensures
        q[alias.len() as int] == '.' ==> !is_prefix_candidate(alias, q),
        is_sep(q[alias.len() as int]) ==> is_prefix_candidate(alias, q),
{
}

/// A map where every canonical name is itself bound, to itself. The builder
/// binds each entry's canonical name to itself, but a later entry whose
/// alias list reuses that name as an alias of a different canonical name
/// overwrites the binding; such a map is excluded here.
pub open spec fn canonically_closed(m: AliasPairs) -> bool {
    forall|i: int| 0 <= i < m.len() ==> lookup(m, (#[trigger] m[i]).1) == Some(m[i].1)
}

impl AliasMap {
    /// The canonical name an alias is bound to, if any.
    fn lookup_exec(&self, key: &str) -> (r: Option<&String>)
        ensures
            match r {
                Some(v) => lookup(self@, key@) == Some(v@),
                None => lookup(self@, key@) is None,
            },
    {
        let ghost m = self@;
        let n = self.entries.len();
        let mut i: usize = 0;
        while i < n
            invariant
                m == self@,
                m == pairs_view(self.entries@),
                n == self.entries@.len(),
                i <= n,
                forall|j: int| 0 <= j < i ==> (#[trigger] m[j]).0 != key@,
            decreases n - i,
        {
            let p = &self.entries[i];
            proof {
                assert(m[i as int] == (self.entries@[i as int].0@, self.entries@[i as int].1@));
            }
            if str_eq(p.0.as_str(), key) {
                proof {
                    lemma_lookup_skip(m, key@, i as int);
                    assert(m.skip(i as int)[0] == m[i as int]);
                }
                return Some(&p.1);
            }
            i = i + 1;
        }
        proof {
            lemma_lookup_skip(m, key@, i as int);
            assert(m.skip(i as int) =~= Seq::<(Seq<char>, Seq<char>)>::empty());
        }
        None
    }

    /// Decide whether the map is canonically closed (see
    /// `canonically_closed`): on a map for which this holds, resolution is
    /// idempotent (see `lemma_resolve_idempotent`).
    pub fn is_canonically_closed(&self) -> (r: bool)
        ensures
            r == canonically_closed(self@),
    {
        let ghost m = self@;
        let n = self.entries.len();
        let mut i: usize = 0;
        while i < n
            invariant
                m == self@,
                m == pairs_view(self.entries@),
                n == self.entries@.len(),
                i <= n,
                forall|j: int|
                    0 <= j < i ==> lookup(m, (#[trigger] m[j]).1) == Some(m[j].1),
            decreases n - i,
        {
            let p = &self.entries[i];
            proof {
                assert(m[i as int] == (self.entries@[i as int].0@, self.entries@[i as int].1@));
            }
            match self.lookup_exec(p.1.as_str()) {
                Some(v) => {
                    if !str_eq(v.as_str(), p.1.as_str()) {
                        proof {
                            assert(lookup(m, m[i as int].1) != Some(m[i as int].1));
                        }
                        return false;
                    }
                },
                None => {
                    proof {
                        assert(lookup(m, m[i as int].1) is None);
                    }
                    return false;
                },
            }
            i = i + 1;
        }
        true
    }
}

/// Resolution only reads the lowercased name: names that agree after
/// lowercasing resolve alike, whatever their case.
pub proof fn lemma_resolve_case_insensitive(m: AliasPairs, a: Seq<char>, b: Seq<char>)
    requires
        lower(a) == lower(b),
    ensures
        resolve_spec(m, a) == resolve_spec(m, b),
{
}

/// A registered alias resolves to its canonical name, regardless of the
/// case the name is spelled in.
pub proof fn lemma_registered_alias_resolves(
    m: AliasPairs,
    alias: Seq<char>,
    c: Seq<char>,
    name: Seq<char>,
)
    requires
        keys_unique(m),
        m.contains((alias, c)),
        lower(name) == alias,
    ensures
        resolve_spec(m, name) == c,
{
    lemma_contains_lookup(m, alias, c);
}

/// What resolution returns is always lowercase.
pub proof fn lemma_resolve_is_lower(m: AliasPairs, name: Seq<char>)
    requires
        all_lower(m),
    ensures
        lower(resolve_spec(m, name)) == resolve_spec(m, name),
{
    let low = lower(name);
    crate::text::lemma_lower_idempotent(name);
    match lookup(m, low) {
        Some(c) => {
            lemma_lookup_some_contains(m, low);
            let w = choose|w: int| 0 <= w < m.len() && m[w] == (low, c);
        },
        None => {
            match prefix_match_spec(m, low) {
                Some(c) => {
                    lemma_best_prefix_contains(m, low, m.len() as int);
                    let b = best_prefix_upto(m, low, m.len() as int)->Some_0;
                    let w = choose|w: int| 0 <= w < m.len() && m[w] == b;
                },
                None => {},
            }
        },
    }
}

/// Resolution is idempotent: resolving a name a second time changes
/// nothing. This needs the map to be canonically closed (see
/// `canonically_closed`).
pub proof fn lemma_resolve_idempotent(m: AliasPairs, name: Seq<char>)
    requires
        keys_unique(m),
        all_lower(m),
        canonically_closed(m),
    ensures
        resolve_spec(m, resolve_spec(m, name)) == resolve_spec(m, name),
{
    let low = lower(name);
    crate::text::lemma_lower_idempotent(name);
    match lookup(m, low) {
        Some(c) => {
            lemma_lookup_some_contains(m, low);
            let w = choose|w: int| 0 <= w < m.len() && m[w] == (low, c);
            assert(lower(c) == c);
            assert(lookup(m, c) == Some(c));
        },
        None => {
            match prefix_match_spec(m, low) {
                Some(c) => {
                    lemma_best_prefix_contains(m, low, m.len() as int);
                    let b = best_prefix_upto(m, low, m.len() as int)->Some_0;
                    let w = choose|w: int| 0 <= w < m.len() && m[w] == b;
                    assert(lower(c) == c);
                    assert(lookup(m, c) == Some(c));
                },
                None => {
                    assert(lower(low) == low);
                },
            }
        },
    }
}

} // verus!
