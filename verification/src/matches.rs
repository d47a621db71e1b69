//! The matching engine: walks a raw token list against the declared schema
//! and yields the mapping from canonical names to matched values.

use vstd::prelude::*;

use crate::errors::{Error, ErrorKind};
use crate::strutil::str_eq;
use crate::vars::{lemma_lookup, lookup, opt_has_alias, OptView, Vars};

verus! {

/// The map an association list denotes, later entries overriding earlier.
pub open spec fn pairs_map(ps: Seq<(String, String)>) -> Map<Seq<char>, Seq<char>>
    decreases ps.len(),
{
    if ps.len() == 0 {
        Map::empty()
    } else {
        pairs_map(ps.drop_last()).insert(ps.last().0@, ps.last().1@)
    }
}

/// No two entries share a key.
pub open spec fn distinct_keys(ps: Seq<(String, String)>) -> bool {
    forall|i: int, j: int| 0 <= i < j < ps.len() ==> ps[i].0@ != ps[j].0@
}

/// Whether some entry carries key `k`.
pub open spec fn has_key(ps: Seq<(String, String)>, k: Seq<char>) -> bool {
    exists|i: int| 0 <= i < ps.len() && ps[i].0@ == k
}

/// A key is in the denoted map exactly when some entry carries it.
proof fn lemma_pairs_map_dom(ps: Seq<(String, String)>)
    ensures
        forall|k: Seq<char>| #[trigger] pairs_map(ps).dom().contains(k) <==> has_key(ps, k),
    decreases ps.len(),
{
    if ps.len() > 0 {
        lemma_pairs_map_dom(ps.drop_last());
        assert forall|k: Seq<char>| #[trigger] pairs_map(ps).dom().contains(k) implies has_key(
            ps,
            k,
        ) by {
            if k == ps.last().0@ {
                assert(ps[ps.len() - 1].0@ == k);
            } else {
                assert(pairs_map(ps.drop_last()).dom().contains(k));
                let i = choose|i: int| 0 <= i < ps.drop_last().len() && ps.drop_last()[i].0@ == k;
                assert(ps[i].0@ == k);
            }
        }
        assert forall|k: Seq<char>| has_key(ps, k) implies #[trigger] pairs_map(
            ps,
        ).dom().contains(k) by {
            let i = choose|i: int| 0 <= i < ps.len() && ps[i].0@ == k;
            if i < ps.len() - 1 {
                assert(ps.drop_last()[i].0@ == k);
                assert(has_key(ps.drop_last(), k));
                assert(pairs_map(ps.drop_last()).dom().contains(k));
            } else {
                assert(k == ps.last().0@);
            }
            assert(pairs_map(ps) == pairs_map(ps.drop_last()).insert(ps.last().0@, ps.last().1@));
        }
    }
}

/// With distinct keys, the entry at `i` gives the denoted map's value there.
proof fn lemma_pairs_map_at(ps: Seq<(String, String)>, i: int)
    requires
        distinct_keys(ps),
        0 <= i < ps.len(),
    ensures
        pairs_map(ps).dom().contains(ps[i].0@),
        pairs_map(ps)[ps[i].0@] == ps[i].1@,
    decreases ps.len(),
{
    if i < ps.len() - 1 {
        assert(ps.drop_last()[i] == ps[i]);
        lemma_pairs_map_at(ps.drop_last(), i);
        assert(ps.last().0@ != ps[i].0@);
    }
}

/// Replacing the entry that carries a key denotes `insert` on the map.
proof fn lemma_pairs_map_update(ps: Seq<(String, String)>, i: int, p: (String, String))
    requires
        distinct_keys(ps),
        0 <= i < ps.len(),
        ps[i].0@ == p.0@,
    ensures
        pairs_map(ps.update(i, p)) == pairs_map(ps).insert(p.0@, p.1@),
    decreases ps.len(),
{
    if i == ps.len() - 1 {
        assert(ps.update(i, p).drop_last() =~= ps.drop_last());
        assert(ps.update(i, p).last() == p);
        assert(pairs_map(ps.drop_last()).insert(p.0@, p.1@) =~= pairs_map(ps.drop_last()).insert(
            ps.last().0@,
            ps.last().1@,
        ).insert(p.0@, p.1@));
    } else {
        assert(ps.update(i, p).drop_last() =~= ps.drop_last().update(i, p));
        assert(ps.update(i, p).last() == ps.last());
        assert(ps.drop_last()[i] == ps[i]);
        lemma_pairs_map_update(ps.drop_last(), i, p);
        assert(ps.last().0@ != p.0@);
        assert(pairs_map(ps.drop_last()).insert(p.0@, p.1@).insert(ps.last().0@, ps.last().1@)
            =~= pairs_map(ps.drop_last()).insert(ps.last().0@, ps.last().1@).insert(p.0@, p.1@));
    }
}

/// The accumulated match result: canonical name → matched value. An option
/// that consumed no value is stored under the empty string; absence of the
/// key, not an empty value, means "not matched".
#[derive(Debug)]
pub struct Matches {
    pairs: Vec<(String, String)>,
}

impl View for Matches {
    type V = Map<Seq<char>, Seq<char>>;

    closed spec fn view(&self) -> Map<Seq<char>, Seq<char>> {
        pairs_map(self.pairs@)
    }
}

/// The index of the entry carrying `key`, if any.
fn find_key(ps: &Vec<(String, String)>, key: &str) -> (r: Option<usize>)
    ensures
        match r {
            Some(i) => i < ps@.len() && ps@[i as int].0@ == key@,
            None => forall|i: int| 0 <= i < ps@.len() ==> ps@[i].0@ != key@,
        },
{
    let n = ps.len();
    let mut i: usize = 0;
    while i < n
        invariant
            n == ps@.len(),
            i <= n,
            forall|j: int| 0 <= j < i ==> ps@[j].0@ != key@,
        decreases n - i,
    {
        if str_eq(ps[i].0.as_str(), key) {
            return Some(i);
        }
        i += 1;
    }
    None
}

impl Matches {
    /// Every entry's key is its own.
    pub closed spec fn wf(&self) -> bool {
        distinct_keys(self.pairs@)
    }

    /// An empty result.
    pub fn new() -> (r: Matches)
        ensures
            r@ == Map::<Seq<char>, Seq<char>>::empty(),
            r.wf(),
    {
        Matches { pairs: Vec::new() }
    }

    /// Store `value` under `key`, replacing any earlier value there.
    pub fn insert(&mut self, key: String, value: String)
        requires
            old(self).wf(),
        ensures
            final(self).wf(),
            final(self)@ == old(self)@.insert(key@, value@),
    {
        let ghost kview = key@;
        let p = (key, value);
        match find_key(&self.pairs, p.0.as_str()) {
            Some(i) => {
                proof {
                    lemma_pairs_map_update(self.pairs@, i as int, p);
                }
                self.pairs.set(i, p);
                proof {
                    assert forall|a: int, b: int|
                        0 <= a < b < self.pairs@.len() implies self.pairs@[a].0@
                        != self.pairs@[b].0@ by {
                        assert(old(self).pairs@[a].0@ != old(self).pairs@[b].0@);
                    }
                }
            },
            None => {
                self.pairs.push(p);
                proof {
                    assert(self.pairs@.drop_last() =~= old(self).pairs@);
                    assert(self.pairs@.last() == p);
                    assert forall|a: int, b: int|
                        0 <= a < b < self.pairs@.len() implies self.pairs@[a].0@
                        != self.pairs@[b].0@ by {
                        if b < self.pairs@.len() - 1 {
                            assert(old(self).pairs@[a].0@ != old(self).pairs@[b].0@);
                        } else {
                            assert(old(self).pairs@[a].0@ != kview);
                        }
                    }
                }
            },
        }
    }
}

/// Read-only view over a match result.
pub trait Match {
    /// The mapping the value denotes.
    spec fn map_view(&self) -> Map<Seq<char>, Seq<char>>;

    /// The value's internal invariant.
    spec fn valid(&self) -> bool;

    /// The value matched under canonical name `arg`, if that name matched.
    fn get(&self, arg: &str) -> (r: Option<&String>)
        requires
            self.valid(),
        ensures
            match r {
                Some(v) => self.map_view().dom().contains(arg@) && v@ == self.map_view()[arg@],
                None => !self.map_view().dom().contains(arg@),
            },
    ;

    /// Whether canonical name `arg` matched at all.
    fn has_match(&self, arg: &str) -> (r: bool)
        requires
            self.valid(),
        ensures
            r == self.map_view().dom().contains(arg@),
    ;

    /// All matched canonical names.
    fn matches(&self) -> (r: Vec<String>)
        requires
            self.valid(),
        ensures
            r@.map_values(|s: String| s@).to_set() == self.map_view().dom(),
            r@.map_values(|s: String| s@).no_duplicates(),
    ;
}

impl Match for Matches {
    open spec fn map_view(&self) -> Map<Seq<char>, Seq<char>> {
        self@
    }

    open spec fn valid(&self) -> bool {
        self.wf()
    }

    fn get(&self, arg: &str) -> (r: Option<&String>) {
        proof {
            lemma_pairs_map_dom(self.pairs@);
        }
        match find_key(&self.pairs, arg) {
            Some(i) => {
                proof {
                    lemma_pairs_map_at(self.pairs@, i as int);
                }
                Some(&self.pairs[i].1)
            },
            None => {
                None
            },
        }
    }

    fn has_match(&self, arg: &str) -> (r: bool) {
        self.get(arg).is_some()
    }

    fn matches(&self) -> (r: Vec<String>) {
        let n = self.pairs.len();
        let mut names: Vec<String> = Vec::new();
        let mut i: usize = 0;
        while i < n
            invariant
                n == self.pairs@.len(),
                i <= n,
                names@.len() == i,
                forall|j: int| 0 <= j < i ==> names@[j]@ == self.pairs@[j].0@,
            decreases n - i,
        {
            names.push(self.pairs[i].0.clone());
            i += 1;
        }
        proof {
            lemma_pairs_map_dom(self.pairs@);
            let nv = names@.map_values(|s: String| s@);
            assert forall|k: Seq<char>| nv.to_set().contains(k) implies self@.dom().contains(
                k,
            ) by {
                let j = choose|j: int| 0 <= j < nv.len() && nv[j] == k;
                assert(self.pairs@[j].0@ == k);
            }
            assert forall|k: Seq<char>| self@.dom().contains(k) implies nv.to_set().contains(
                k,
            ) by {
                let j = choose|j: int| 0 <= j < self.pairs@.len() && self.pairs@[j].0@ == k;
                assert(nv[j] == k);
            }
            assert(nv.to_set() =~= self@.dom());
        }
        names
    }
}

/// A token with one leading `-` and a second `-`: a long option.
pub open spec fn is_long_token(t: Seq<char>) -> bool {
    t.len() >= 2 && t[0] == '-' && t[1] == '-'
}

/// The aliases an option token stands for: the name after `--` for a long
/// option, or each character after the `-` of a bundled short group.
pub open spec fn token_aliases(t: Seq<char>) -> Seq<Seq<char>> {
    if is_long_token(t) {
        seq![t.skip(2)]
    } else {
        Seq::new((t.len() - 1) as nat, |k: int| seq![t[k + 1]])
    }
}

/// How one whole scan ends: the accumulated result, or the first failure.
pub ghost enum Outcome {
    Success { found: Map<Seq<char>, Seq<char>> },
    Failure { kind: ErrorKind, arg: Seq<char> },
}

/// One forward pass, from an intermediate state: `i` is the index of the
/// next unread token, `aliases` what is left of the option token in hand,
/// `rem` the positional names not yet consumed, `found` the entries made so
/// far. An alias that consumes a value takes the token at the shared cursor
/// `i`: aliases bundled in one group draw from the same stream.
pub open spec fn scan(
    tokens: Seq<Seq<char>>,
    i: int,
    aliases: Seq<Seq<char>>,
    opts: Seq<OptView>,
    rem: Seq<Seq<char>>,
    found: Map<Seq<char>, Seq<char>>,
) -> Outcome
    decreases tokens.len() - i, aliases.len(),
    when 0 <= i <= tokens.len()
{
    if aliases.len() > 0 {
        let a = aliases[0];
        match lookup(opts, a) {
            None => Outcome::Failure { kind: ErrorKind::InvalidArgument, arg: a },
            Some(o) => {
                if o.has_arg {
                    if i < tokens.len() {
                        scan(
                            tokens,
                            i + 1,
                            aliases.drop_first(),
                            opts,
                            rem,
                            found.insert(o.name, tokens[i]),
                        )
                    } else {
                        Outcome::Failure { kind: ErrorKind::MissingArgument, arg: a }
                    }
                } else {
                    scan(
                        tokens,
                        i,
                        aliases.drop_first(),
                        opts,
                        rem,
                        found.insert(o.name, Seq::empty()),
                    )
                }
            },
        }
    } else if i < tokens.len() {
        let t = tokens[i];
        if t.len() >= 1 && t[0] == '-' {
            scan(tokens, i + 1, token_aliases(t), opts, rem, found)
        } else if rem.len() > 0 {
            scan(tokens, i + 1, aliases, opts, rem.drop_first(), found.insert(rem[0], t))
        } else {
            Outcome::Failure { kind: ErrorKind::InvalidArgument, arg: t }
        }
    } else if rem.len() > 0 {
        Outcome::Failure { kind: ErrorKind::MissingArgument, arg: rem[0] }
    } else {
        Outcome::Success { found }
    }
}

/// What matching `tokens` against a schema yields. The first token is the
/// program name and is discarded.
pub open spec fn match_outcome(
    tokens: Seq<Seq<char>>,
    opts: Seq<OptView>,
    args: Seq<Seq<char>>,
) -> Outcome {
    let start: int = if tokens.len() == 0 {
        0
    } else {
        1
    };
    scan(tokens, start, Seq::empty(), opts, args, Map::empty())
}

/// Match the raw argument list `env_args` against the schema in `vars`:
/// classify each token after the first as a long option, a bundled group of
/// short options, or a positional value; resolve every alias against the
/// declared options, consuming the next token as the value of an option
/// declared to take one; hand each positional token to the next declared
/// positional name, in order. The scan stops at the first failure; success
/// requires every declared positional name to have been consumed.
pub fn matches(env_args: &Vec<String>, vars: &mut Vars) -> (r: Result<Matches, Error>)
    requires
        old(vars).wf(),
    ensures
        final(vars).wf(),
        final(vars).opts_seq() == old(vars).opts_seq(),
        match r {
            Ok(m) => m.wf() && match_outcome(
                env_args@.map_values(|s: String| s@),
                old(vars).opts_seq(),
                old(vars).remaining_args(),
            ) == (Outcome::Success { found: m@ }) && final(vars).remaining_args().len() == 0,
            Err(e) => match_outcome(
                env_args@.map_values(|s: String| s@),
                old(vars).opts_seq(),
                old(vars).remaining_args(),
            ) == (Outcome::Failure { kind: e.kind, arg: e.arg@ }),
        },
{
    let ghost toks = env_args@.map_values(|s: String| s@);
    let ghost opts_v = vars.opts_seq();
    let ghost outcome = match_outcome(toks, opts_v, vars.remaining_args());

    let mut found = Matches::new();
    let n = env_args.len();
    let mut i: usize = if n == 0 {
        0
    } else {
        1
    };
    while i < n
        invariant
            old(vars).wf(),
            vars.wf(),
            vars.opts_seq() == opts_v,
            opts_v == old(vars).opts_seq(),
            outcome == match_outcome(toks, opts_v, old(vars).remaining_args()),
            n == env_args@.len(),
            toks == env_args@.map_values(|s: String| s@),
            i <= n,
            found.wf(),
            scan(toks, i as int, Seq::empty(), opts_v, vars.remaining_args(), found@) == outcome,
        decreases n - i,
    {
        let ghost i_entry = i;
        let t: &String = &env_args[i];
        let tlen = t.as_str().unicode_len();
        if tlen >= 1 && t.as_str().get_char(0) == '-' {
            let mut alias_vec: Vec<String> = Vec::new();
            if tlen >= 2 && t.as_str().get_char(1) == '-' {
                let rest = t.as_str().substring_char(2, tlen);
                alias_vec.push(String::from_str(rest));
                proof {
                    assert(alias_vec@.map_values(|s: String| s@) =~= token_aliases(
                        toks[i as int],
                    ));
                }
            } else {
                let mut k: usize = 1;
                while k < tlen
                    invariant
                        1 <= k <= tlen,
                        i < n,
                        n == env_args@.len(),
                        toks == env_args@.map_values(|s: String| s@),
                        tlen == toks[i as int].len(),
                        t@ == toks[i as int],
                        alias_vec@.len() == k - 1,
                        forall|j: int|
                            0 <= j < k - 1 ==> alias_vec@[j]@ == seq![toks[i as int][j + 1]],
                    decreases tlen - k,
                {
                    let one = t.as_str().substring_char(k, k + 1);
                    alias_vec.push(String::from_str(one));
                    proof {
                        assert(one@ =~= seq![toks[i as int][k as int]]);
                    }
                    k += 1;
                }
                proof {
                    assert(alias_vec@.map_values(|s: String| s@) =~= token_aliases(
                        toks[i as int],
                    ));
                }
            }
            let ghost avs = alias_vec@.map_values(|s: String| s@);
            i += 1;
            proof {
                assert(avs.skip(0) =~= avs);
            }
            let mut a_idx: usize = 0;
            while a_idx < alias_vec.len()
                invariant
                    old(vars).wf(),
                    vars.wf(),
                    vars.opts_seq() == opts_v,
                    opts_v == old(vars).opts_seq(),
                    outcome == match_outcome(toks, opts_v, old(vars).remaining_args()),
                    n == env_args@.len(),
                    toks == env_args@.map_values(|s: String| s@),
                    i_entry < i <= n,
                    a_idx <= alias_vec@.len(),
                    avs == alias_vec@.map_values(|s: String| s@),
                    found.wf(),
                    scan(
                        toks,
                        i as int,
                        avs.skip(a_idx as int),
                        opts_v,
                        vars.remaining_args(),
                        found@,
                    ) == outcome,
                decreases alias_vec@.len() - a_idx,
            {
                let alias: &String = &alias_vec[a_idx];
                proof {
                    assert(avs.skip(a_idx as int)[0] == alias@);
                    assert(avs.skip(a_idx as int).drop_first() =~= avs.skip(a_idx + 1));
                }
                let looked = vars.get_opt(alias);
                match looked {
                    None => {
                        return Err(Error::new(ErrorKind::InvalidArgument, alias.clone()));
                    },
                    Some(opt) => {
                        let consumes = opt.has_arg;
                        let oname = opt.name();
                        if consumes {
                            if i < n {
                                let value = env_args[i].clone();
                                found.insert(oname, value);
                                i += 1;
                            } else {
                                return Err(
                                    Error::new(ErrorKind::MissingArgument, alias.clone()),
                                );
                            }
                        } else {
                            found.insert(oname, String::new());
                        }
                    },
                }
                a_idx += 1;
            }
            proof {
                assert(avs.skip(alias_vec@.len() as int) =~= Seq::<Seq<char>>::empty());
            }
        } else {
            match vars.get_arg() {
                Some(name) => {
                    found.insert(name, t.clone());
                    i += 1;
                },
                None => {
                    return Err(Error::new(ErrorKind::InvalidArgument, t.clone()));
                },
            }
        }
    }
    if vars.arg_len() == 0 {
        Ok(found)
    } else {
        let name = vars.get_arg().unwrap();
        Err(Error::new(ErrorKind::MissingArgument, name))
    }
}

/// Whether `k` is a name the schema declares: the canonical name of an
/// option, or a positional argument name.
pub open spec fn schema_has_name(opts: Seq<OptView>, args: Seq<Seq<char>>, k: Seq<char>) -> bool {
    (exists|x: int| 0 <= x < opts.len() && opts[x].name == k) || args.contains(k)
}

proof fn lemma_scan_keys(
    tokens: Seq<Seq<char>>,
    i: int,
    aliases: Seq<Seq<char>>,
    opts: Seq<OptView>,
    rem: Seq<Seq<char>>,
    found: Map<Seq<char>, Seq<char>>,
)
    requires
        0 <= i <= tokens.len(),
    ensures
        match scan(tokens, i, aliases, opts, rem, found) {
            Outcome::Success { found: f } => {
                &&& forall|k: Seq<char>| #[trigger]
                    f.dom().contains(k) ==> found.dom().contains(k) || schema_has_name(
                        opts,
                        rem,
                        k,
                    )
                &&& forall|j: int| 0 <= j < rem.len() ==> f.dom().contains(#[trigger] rem[j])
                &&& forall|k: Seq<char>| #[trigger]
                    found.dom().contains(k) ==> f.dom().contains(k)
            },
            Outcome::Failure { .. } => true,
        },
    decreases tokens.len() - i, aliases.len(),
{
    if aliases.len() > 0 {
        match lookup(opts, aliases[0]) {
            None => {},
            Some(o) => {
                lemma_lookup(opts, aliases[0]);
                let x = choose|x: int|
                    0 <= x < opts.len() && opts[x] == o && opt_has_alias(o, aliases[0]);
                let inserted = if o.has_arg && i < tokens.len() {
                    found.insert(o.name, tokens[i])
                } else {
                    found.insert(o.name, Seq::empty())
                };
                if o.has_arg && i >= tokens.len() {
                } else {
                    let i2: int = if o.has_arg {
                        i + 1
                    } else {
                        i
                    };
                    lemma_scan_keys(tokens, i2, aliases.drop_first(), opts, rem, inserted);
                    match scan(tokens, i2, aliases.drop_first(), opts, rem, inserted) {
                        Outcome::Success { found: f } => {
                            assert forall|k: Seq<char>| #[trigger]
                                f.dom().contains(k) implies found.dom().contains(k)
                                || schema_has_name(opts, rem, k) by {
                                if inserted.dom().contains(k) && !found.dom().contains(k) {
                                    assert(k == o.name);
                                    assert(opts[x].name == k);
                                }
                            }
                            assert forall|k: Seq<char>| #[trigger]
                                found.dom().contains(k) implies f.dom().contains(k) by {
                                assert(inserted.dom().contains(k));
                            }
                        },
                        Outcome::Failure { .. } => {},
                    }
                }
            },
        }
    } else if i < tokens.len() {
        let t = tokens[i];
        if t.len() >= 1 && t[0] == '-' {
            lemma_scan_keys(tokens, i + 1, token_aliases(t), opts, rem, found);
        } else if rem.len() > 0 {
            let inserted = found.insert(rem[0], t);
            lemma_scan_keys(tokens, i + 1, aliases, opts, rem.drop_first(), inserted);
            match scan(tokens, i + 1, aliases, opts, rem.drop_first(), inserted) {
                Outcome::Success { found: f } => {
                    assert forall|k: Seq<char>| #[trigger]
                        f.dom().contains(k) implies found.dom().contains(k) || schema_has_name(
                        opts,
                        rem,
                        k,
                    ) by {
                        if inserted.dom().contains(k) {
                            if !found.dom().contains(k) {
                                assert(k == rem[0]);
                                assert(rem.contains(k));
                            }
                        } else if schema_has_name(opts, rem.drop_first(), k) {
                            if rem.drop_first().contains(k) {
                                let j = choose|j: int|
                                    0 <= j < rem.drop_first().len() && rem.drop_first()[j] == k;
                                assert(rem[j + 1] == k);
                                assert(rem.contains(k));
                            }
                        }
                    }
                    assert forall|j: int| 0 <= j < rem.len() implies f.dom().contains(
                        #[trigger] rem[j],
                    ) by {
                        if j == 0 {
                            assert(inserted.dom().contains(rem[0]));
                        } else {
                            assert(rem.drop_first()[j - 1] == rem[j]);
                        }
                    }
                    assert forall|k: Seq<char>| #[trigger]
                        found.dom().contains(k) implies f.dom().contains(k) by {
                        assert(inserted.dom().contains(k));
                    }
                },
                Outcome::Failure { .. } => {},
            }
        }
    }
}

/// On success the result holds no stray key: every key is the canonical name
/// of a declared option or a declared positional name, and every declared
/// positional name is present.
pub proof fn lemma_match_keys(tokens: Seq<Seq<char>>, opts: Seq<OptView>, args: Seq<Seq<char>>)
    ensures
        match match_outcome(tokens, opts, args) {
            Outcome::Success { found } => {
                &&& forall|k: Seq<char>| #[trigger]
                    found.dom().contains(k) ==> schema_has_name(opts, args, k)
                &&& forall|j: int| 0 <= j < args.len() ==> found.dom().contains(#[trigger] args[j])
            },
            Outcome::Failure { .. } => true,
        },
{
    let start: int = if tokens.len() == 0 {
        0
    } else {
        1
    };
    lemma_scan_keys(tokens, start, Seq::empty(), opts, args, Map::empty());
}

/// An alias that resolves to a declared descriptor puts the descriptor's
/// canonical name into every result the scan goes on to succeed with: a
/// matched option always has its entry.
pub proof fn lemma_matched_option_has_entry(
    tokens: Seq<Seq<char>>,
    i: int,
    aliases: Seq<Seq<char>>,
    opts: Seq<OptView>,
    rem: Seq<Seq<char>>,
    found: Map<Seq<char>, Seq<char>>,
    o: OptView,
)
    requires
        0 <= i <= tokens.len(),
        aliases.len() > 0,
        lookup(opts, aliases[0]) == Some(o),
    ensures
        match scan(tokens, i, aliases, opts, rem, found) {
            Outcome::Success { found: f } => f.dom().contains(o.name),
            Outcome::Failure { .. } => true,
        },
{
    if o.has_arg && i >= tokens.len() {
    } else {
        let i2: int = if o.has_arg {
            i + 1
        } else {
            i
        };
        let inserted = if o.has_arg {
            found.insert(o.name, tokens[i])
        } else {
            found.insert(o.name, Seq::empty())
        };
        lemma_scan_keys(tokens, i2, aliases.drop_first(), opts, rem, inserted);
        assert(inserted.dom().contains(o.name));
    }
}

/// For every schema, a flag option given by one of its aliases and nothing
/// else yields canonical-name → empty string: the value-less entry is itself
/// the record that the flag matched, distinct from the key's absence.
pub proof fn lemma_flag_yields_empty(
    prog: Seq<char>,
    t: Seq<char>,
    opts: Seq<OptView>,
    o: OptView,
)
    requires
        t.len() >= 1 && t[0] == '-',
        token_aliases(t).len() == 1,
        lookup(opts, token_aliases(t)[0]) == Some(o),
        !o.has_arg,
    ensures
        match_outcome(seq![prog, t], opts, Seq::empty()) == (Outcome::Success {
            found: Map::<Seq<char>, Seq<char>>::empty().insert(o.name, Seq::empty()),
        }),
{
    let toks = seq![prog, t];
    let als = token_aliases(t);
    let m = Map::<Seq<char>, Seq<char>>::empty().insert(o.name, Seq::empty());
    assert(toks[1] == t);
    assert(scan(toks, 1, Seq::empty(), opts, Seq::empty(), Map::empty()) == scan(
        toks,
        2,
        als,
        opts,
        Seq::empty(),
        Map::empty(),
    ));
    assert(als.drop_first() =~= Seq::<Seq<char>>::empty());
    assert(scan(toks, 2, als, opts, Seq::empty(), Map::empty()) == scan(
        toks,
        2,
        als.drop_first(),
        opts,
        Seq::empty(),
        m,
    ));
    assert(scan(toks, 2, als.drop_first(), opts, Seq::empty(), m) == (Outcome::Success {
        found: m,
    }));
}

/// An alias that no declared option carries fails the scan at once with
/// `InvalidArgument` carrying that alias, wherever the scan stands.
pub proof fn lemma_unknown_alias(
    tokens: Seq<Seq<char>>,
    i: int,
    aliases: Seq<Seq<char>>,
    opts: Seq<OptView>,
    rem: Seq<Seq<char>>,
    found: Map<Seq<char>, Seq<char>>,
)
    requires
        0 <= i <= tokens.len(),
        aliases.len() > 0,
        lookup(opts, aliases[0]) is None,
    ensures
        scan(tokens, i, aliases, opts, rem, found) == (Outcome::Failure {
            kind: ErrorKind::InvalidArgument,
            arg: aliases[0],
        }),
{
}

/// An option token whose first alias is unknown fails the whole scan with
/// `InvalidArgument` carrying that alias, regardless of its position in the
/// stream or of what was matched before it.
pub proof fn lemma_unknown_option_token(
    tokens: Seq<Seq<char>>,
    i: int,
    opts: Seq<OptView>,
    rem: Seq<Seq<char>>,
    found: Map<Seq<char>, Seq<char>>,
)
    requires
        0 <= i < tokens.len(),
        tokens[i].len() >= 1 && tokens[i][0] == '-',
        token_aliases(tokens[i]).len() > 0,
        lookup(opts, token_aliases(tokens[i])[0]) is None,
    ensures
        scan(tokens, i, Seq::empty(), opts, rem, found) == (Outcome::Failure {
            kind: ErrorKind::InvalidArgument,
            arg: token_aliases(tokens[i])[0],
        }),
{
    lemma_unknown_alias(tokens, i + 1, token_aliases(tokens[i]), opts, rem, found);
}

/// An option declared to consume a value but standing as the last token
/// fails with `MissingArgument` carrying the alias, whatever came before.
pub proof fn lemma_last_token_missing_value(
    tokens: Seq<Seq<char>>,
    opts: Seq<OptView>,
    rem: Seq<Seq<char>>,
    found: Map<Seq<char>, Seq<char>>,
    o: OptView,
)
    requires
        tokens.len() >= 1,
        tokens[tokens.len() - 1].len() >= 1 && tokens[tokens.len() - 1][0] == '-',
        token_aliases(tokens[tokens.len() - 1]).len() >= 1,
        lookup(opts, token_aliases(tokens[tokens.len() - 1])[0]) == Some(o),
        o.has_arg,
    ensures
        scan(tokens, tokens.len() - 1, Seq::empty(), opts, rem, found) == (Outcome::Failure {
            kind: ErrorKind::MissingArgument,
            arg: token_aliases(tokens[tokens.len() - 1])[0],
        }),
{
    let t = tokens[tokens.len() - 1];
    assert(scan(tokens, tokens.len() - 1, Seq::empty(), opts, rem, found) == scan(
        tokens,
        tokens.len() as int,
        token_aliases(t),
        opts,
        rem,
        found,
    ));
}

/// When the tokens run out with positional names still unconsumed, the match
/// fails with `MissingArgument` carrying the next unsatisfied name.
pub proof fn lemma_missing_positional(
    tokens: Seq<Seq<char>>,
    opts: Seq<OptView>,
    rem: Seq<Seq<char>>,
    found: Map<Seq<char>, Seq<char>>,
)
    requires
        rem.len() > 0,
    ensures
        scan(tokens, tokens.len() as int, Seq::empty(), opts, rem, found) == (Outcome::Failure {
            kind: ErrorKind::MissingArgument,
            arg: rem[0],
        }),
{
}

/// A positional token met when no declared positional slot is left fails
/// with `InvalidArgument` carrying that token, wherever it stands.
pub proof fn lemma_unexpected_positional(
    tokens: Seq<Seq<char>>,
    i: int,
    opts: Seq<OptView>,
    found: Map<Seq<char>, Seq<char>>,
)
    requires
        0 <= i < tokens.len(),
        !(tokens[i].len() >= 1 && tokens[i][0] == '-'),
    ensures
        scan(tokens, i, Seq::empty(), opts, Seq::empty(), found) == (Outcome::Failure {
            kind: ErrorKind::InvalidArgument,
            arg: tokens[i],
        }),
{
}

} // verus!
