//! The variable environment: a store of name-to-value bindings together
//! with template substitution.
//!
//! A template is scanned left to right once.  A `$` followed by a maximal
//! run of uppercase ASCII letters names a variable; the run is replaced by
//! the variable's value.  A `$` followed by no uppercase letter is copied
//! through unchanged.  Looking up an unbound name yields the name itself,
//! so substitution never fails.

use vstd::prelude::*;

use crate::text::str_eq;

verus! {

/// The value bound to `name` in `m`, or `name` itself when unbound.
pub open spec fn env_lookup(m: Map<Seq<char>, Seq<char>>, name: Seq<char>) -> Seq<char> {
    if m.dom().contains(name) {
        m[name]
    } else {
        name
    }
}

/// True of an uppercase ASCII letter: the characters a variable name is
/// made of.
pub open spec fn is_var_char(c: char) -> bool {
    'A' <= c && c <= 'Z'
}

/// The length of the maximal run of uppercase ASCII letters at the front
/// of `s`.
pub open spec fn var_run_len(s: Seq<char>) -> nat
    decreases s.len(),
{
    if s.len() > 0 && is_var_char(s[0]) {
        1 + var_run_len(s.drop_first())
    } else {
        0
    }
}

/// The front run never reaches past the end of the sequence.
pub proof fn lemma_var_run_len_le(s: Seq<char>)
    ensures
        var_run_len(s) <= s.len(),
    decreases s.len(),
{
    if s.len() > 0 && is_var_char(s[0]) {
        lemma_var_run_len_le(s.drop_first());
    }
}

/// The template `t` with every `$`-prefixed variable name replaced by its
/// value under `m`.  A `$` with an empty name run is kept as it is; the
/// substituted value is not scanned again.
pub open spec fn resolve_spec(m: Map<Seq<char>, Seq<char>>, t: Seq<char>) -> Seq<char>
    decreases t.len(),
    via resolve_spec_decreases
{
    if t.len() == 0 {
        Seq::empty()
    } else if t[0] == '$' {
        let k = var_run_len(t.skip(1)) as int;
        if k == 0 {
            seq!['$'] + resolve_spec(m, t.skip(1))
        } else {
            env_lookup(m, t.subrange(1, 1 + k)) + resolve_spec(m, t.skip(1 + k))
        }
    } else {
        seq![t[0]] + resolve_spec(m, t.skip(1))
    }
}

#[via_fn]
proof fn resolve_spec_decreases(m: Map<Seq<char>, Seq<char>>, t: Seq<char>) {
    if t.len() > 0 && t[0] == '$' {
        lemma_var_run_len_le(t.skip(1));
    }
}

/// A template with no `$` resolves to itself.
pub proof fn lemma_resolve_no_dollar(m: Map<Seq<char>, Seq<char>>, t: Seq<char>)
    requires
        forall|i: int| 0 <= i < t.len() ==> t[i] != '$',
    ensures
        resolve_spec(m, t) == t,
    decreases t.len(),
{
    if t.len() > 0 {
        lemma_resolve_no_dollar(m, t.skip(1));
        assert(seq![t[0]] + t.skip(1) =~= t);
    }
}

/// An unbound name looks up to itself; a bound name looks up to the value
/// most recently set for it, whether the binding was fresh or overwrote an
/// earlier one.
pub proof fn lemma_env_get_set(
    m: Map<Seq<char>, Seq<char>>,
    x: Seq<char>,
    v: Seq<char>,
    w: Seq<char>,
)
    ensures
        !m.dom().contains(x) ==> env_lookup(m, x) == x,
        env_lookup(m.insert(x, v), x) == v,
        env_lookup(m.insert(x, v).insert(x, w), x) == w,
{
}

/// User-defined variables: names bound to string values.
#[derive(Debug, PartialEq)]
pub struct Env {
    pairs: Vec<(String, String)>,
}

/// The bindings that a list of pairs denotes, later entries shadowing
/// earlier ones.
spec fn pairs_map(s: Seq<(String, String)>) -> Map<Seq<char>, Seq<char>>
    decreases s.len(),
{
    if s.len() == 0 {
        Map::empty()
    } else {
        pairs_map(s.drop_last()).insert(s.last().0@, s.last().1@)
    }
}

/// True when no two entries carry the same name.
spec fn keys_unique(s: Seq<(String, String)>) -> bool {
    forall|i: int, j: int| 0 <= i < j < s.len() ==> #[trigger] s[i].0@ != #[trigger] s[j].0@
}

/// A name that appears in no entry is not in the denoted map.
proof fn lemma_pairs_map_absent(s: Seq<(String, String)>, name: Seq<char>)
    requires
        forall|i: int| 0 <= i < s.len() ==> #[trigger] s[i].0@ != name,
    ensures
        !pairs_map(s).dom().contains(name),
    decreases s.len(),
{
    if s.len() > 0 {
        lemma_pairs_map_absent(s.drop_last(), name);
    }
}

/// With unique names, the entry at `i` gives the denoted map's value for
/// its name.
proof fn lemma_pairs_map_found(s: Seq<(String, String)>, i: int)
    requires
        keys_unique(s),
        0 <= i < s.len(),
    ensures
        pairs_map(s).dom().contains(s[i].0@),
        pairs_map(s)[s[i].0@] == s[i].1@,
    decreases s.len(),
{
    if i < s.len() - 1 {
        lemma_pairs_map_found(s.drop_last(), i);
    }
}

/// Replacing the entry that carries a name rebinds exactly that name.
proof fn lemma_pairs_map_update(s: Seq<(String, String)>, i: int, p: (String, String))
    requires
        keys_unique(s),
        0 <= i < s.len(),
        s[i].0@ == p.0@,
    ensures
        pairs_map(s.update(i, p)) =~= pairs_map(s).insert(p.0@, p.1@),
    decreases s.len(),
{
    if i == s.len() - 1 {
        assert(s.update(i, p).drop_last() =~= s.drop_last());
    } else {
        assert(s.update(i, p).drop_last() =~= s.drop_last().update(i, p));
        lemma_pairs_map_update(s.drop_last(), i, p);
    }
}

impl Env {
    /// No two entries carry the same name, so each lookup has one answer.
    #[verifier::type_invariant]
    spec fn inv(self) -> bool {
        keys_unique(self.pairs@)
    }

    /// Retrieve the value stored at variable_name.
    pub fn get_variable(&self, variable_name: &str) -> (r: String)
        ensures
            r@ == env_lookup(self@, variable_name@),
    {
        proof {
            use_type_invariant(self);
        }
        let n = self.pairs.len();
        let mut i: usize = 0;
        while i < n
            invariant
                keys_unique(self.pairs@),
                n == self.pairs@.len(),
                i <= n,
                forall|j: int| 0 <= j < i ==> #[trigger] self.pairs@[j].0@ != variable_name@,
            decreases n - i,
        {
            if str_eq(self.pairs[i].0.as_str(), variable_name) {
                proof {
                    lemma_pairs_map_found(self.pairs@, i as int);
                }
                return self.pairs[i].1.clone();
            }
            i = i + 1;
        }
        proof {
            lemma_pairs_map_absent(self.pairs@, variable_name@);
        }
        variable_name.to_owned()
    }

    /// Set variable_name to value, always overwrites.
    pub fn set_variable(&mut self, variable_name: &str, value: String)
        ensures
            final(self)@ == old(self)@.insert(variable_name@, value@),
    {
        proof {
            use_type_invariant(&*self);
        }
        let mut pairs: Vec<(String, String)> = Vec::new();
        std::mem::swap(&mut pairs, &mut self.pairs);
        let ghost orig = pairs@;
        let n = pairs.len();
        let mut i: usize = 0;
        while i < n
            invariant
                pairs@ == orig,
                orig == old(self).pairs@,
                keys_unique(orig),
                n == orig.len(),
                i <= n,
                forall|j: int| 0 <= j < i ==> #[trigger] orig[j].0@ != variable_name@,
            decreases n - i,
        {
            if str_eq(pairs[i].0.as_str(), variable_name) {
                let entry = (variable_name.to_owned(), value);
                proof {
                    lemma_pairs_map_update(orig, i as int, entry);
                }
                pairs[i] = entry;
                proof {
                    assert(forall|a: int|
                        0 <= a < pairs@.len() ==> #[trigger] pairs@[a].0@ == orig[a].0@);
                }
                self.pairs = pairs;
                return ;
            }
            i = i + 1;
        }
        proof {
            lemma_pairs_map_absent(orig, variable_name@);
        }
        let entry = (variable_name.to_owned(), value);
        pairs.push(entry);
        proof {
            assert(pairs@.drop_last() =~= orig);
            assert(forall|a: int, b: int|
                0 <= a < b < pairs@.len() ==> #[trigger] pairs@[a].0@ != #[trigger] pairs@[b].0@)
                by {
                assert(forall|a: int|
                    0 <= a < orig.len() ==> #[trigger] pairs@[a].0@ == orig[a].0@);
            }
        }
        self.pairs = pairs;
    }

    /// Resolve a string template: substitute each `$NAME` by the value
    /// bound to `NAME`, leaving every other character as it stands.
    pub fn resolve_template(&self, template: &str) -> (ret: String)
        ensures
            ret@ == resolve_spec(self@, template@),
    {
        let ghost t = template@;
        let mut ret = String::new();
        let n = template.unicode_len();
        let mut i: usize = 0;
        proof {
            assert(t.skip(0) =~= t);
            assert(ret@ + resolve_spec(self@, t) =~= resolve_spec(self@, t));
        }
        while i < n
            invariant
                n == t.len(),
                t == template@,
                i <= n,
                resolve_spec(self@, t) == ret@ + resolve_spec(self@, t.skip(i as int)),
            decreases n - i,
        {
            let c = template.get_char(i);
            if c == '$' {
                let mut j = i + 1;
                loop
                    invariant
                        n == t.len(),
                        t == template@,
                        i < j <= n,
                        forall|p: int| i < p < j ==> is_var_char(#[trigger] t[p]),
                    ensures
                        i < j <= n,
                        forall|p: int| i < p < j ==> is_var_char(#[trigger] t[p]),
                        j == n || !is_var_char(t[j as int]),
                    decreases n - j,
                {
                    if j == n {
                        break ;
                    }
                    let u = template.get_char(j);
                    if u < 'A' || u > 'Z' {
                        break ;
                    }
                    j = j + 1;
                }
                proof {
                    lemma_var_run_at(t, i + 1 as int, j as int);
                    assert(t.skip(i as int)[0] == t[i as int]);
                    assert(t.skip(i as int).skip(1) =~= t.skip(i + 1 as int));
                }
                if j == i + 1 {
                    ret.append("$");
                    proof {
                        assert(resolve_spec(self@, t.skip(i as int)) == seq!['$'] + resolve_spec(
                            self@,
                            t.skip(i + 1 as int),
                        ));
                        assert(("$")@ =~= seq!['$']) by {
                            reveal_strlit("$");
                        }
                    }
                    i = i + 1;
                } else {
                    let name = template.substring_char(i + 1, j);
                    let value = self.get_variable(name);
                    ret.append(value.as_str());
                    proof {
                        assert(t.skip(i as int).subrange(1, (j - i) as int) =~= t.subrange(
                            i + 1 as int,
                            j as int,
                        ));
                        assert(t.skip(i as int).skip((j - i) as int) =~= t.skip(j as int));
                    }
                    i = j;
                }
            } else {
                let piece = template.substring_char(i, i + 1);
                ret.append(piece);
                proof {
                    assert(piece@ =~= seq![t[i as int]]);
                    assert(t.skip(i as int)[0] == t[i as int]);
                    assert(t.skip(i as int).skip(1) =~= t.skip(i + 1 as int));
                }
                i = i + 1;
            }
        }
        proof {
            assert(t.skip(n as int) =~= Seq::<char>::empty());
            assert(ret@ =~= ret@ + Seq::<char>::empty());
        }
        ret
    }
}

/// A scan that stops at `end` has found the maximal uppercase run from
/// `start`.
proof fn lemma_var_run_at(t: Seq<char>, start: int, end: int)
    requires
        0 <= start <= end <= t.len(),
        forall|p: int| start <= p < end ==> is_var_char(#[trigger] t[p]),
        end == t.len() || !is_var_char(t[end]),
    ensures
        var_run_len(t.skip(start)) == end - start,
    decreases end - start,
{
    if start < end {
        assert(t.skip(start)[0] == t[start]);
        assert(t.skip(start).drop_first() =~= t.skip(start + 1));
        lemma_var_run_at(t, start + 1, end);
    } else {
        if start < t.len() {
            assert(t.skip(start)[0] == t[start]);
        }
    }
}

impl Default for Env {
    /// An environment with no bindings.
    fn default() -> (r: Self)
        ensures
            r@ == Map::<Seq<char>, Seq<char>>::empty(),
    {
        Env { pairs: Vec::new() }
    }
}

impl View for Env {
    type V = Map<Seq<char>, Seq<char>>;

    /// The bindings currently in force.
    closed spec fn view(&self) -> Map<Seq<char>, Seq<char>> {
        pairs_map(self.pairs@)
    }
}

} // verus!
