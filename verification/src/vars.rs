//! The schema registry: declared options and the ordered queue of required
//! positional arguments, built from compact declaration strings.

use vstd::prelude::*;

use crate::errors::{Error, ErrorKind};
use crate::strutil::{first_index, index_of, lemma_first_index, str_eq};

verus! {

/// Ghost image of an option descriptor.
pub ghost struct OptView {
    pub name: Seq<char>,
    pub short: Option<Seq<char>>,
    pub long: Option<Seq<char>>,
    pub has_arg: bool,
}

/// An option descriptor: the canonical name under which a match is stored,
/// the aliases by which the option is given on the command line, and whether
/// it consumes the token that follows it.
#[derive(Debug)]
pub struct Opt {
    pub name: String,
    pub short: Option<String>,
    pub long: Option<String>,
    pub has_arg: bool,
}

impl View for Opt {
    type V = OptView;

    open spec fn view(&self) -> OptView {
        OptView {
            name: self.name@,
            short: match self.short {
                Option::Some(s) => Option::Some(s@),
                Option::None => Option::None,
            },
            long: match self.long {
                Option::Some(s) => Option::Some(s@),
                Option::None => Option::None,
            },
            has_arg: self.has_arg,
        }
    }
}

impl Opt {
    /// The canonical name, cloned out of the descriptor.
    pub fn name(&self) -> (r: String)
        ensures
            r@ == self@.name,
    {
        self.name.clone()
    }
}

/// Whether `a` is one of the descriptor's aliases. Identity is by alias, not
/// by canonical name.
pub open spec fn opt_has_alias(o: OptView, a: Seq<char>) -> bool {
    o.short == Some(a) || o.long == Some(a)
}

/// The first declared descriptor that carries alias `a`.
pub open spec fn lookup(opts: Seq<OptView>, a: Seq<char>) -> Option<OptView>
    decreases opts.len(),
{
    if opts.len() == 0 {
        None
    } else if opt_has_alias(opts[0], a) {
        Some(opts[0])
    } else {
        lookup(opts.drop_first(), a)
    }
}

/// What `lookup` yields: a declared descriptor carrying the alias, or the
/// knowledge that no declared descriptor carries it.
pub proof fn lemma_lookup(opts: Seq<OptView>, a: Seq<char>)
    ensures
        match lookup(opts, a) {
            Some(o) => exists|i: int| 0 <= i < opts.len() && opts[i] == o && opt_has_alias(o, a),
            None => forall|i: int| 0 <= i < opts.len() ==> !opt_has_alias(opts[i], a),
        },
    decreases opts.len(),
{
    if opts.len() > 0 {
        if opt_has_alias(opts[0], a) {
            assert(0 <= 0 < opts.len() && opts[0] == opts[0] && opt_has_alias(opts[0], a));
        } else {
            lemma_lookup(opts.drop_first(), a);
            match lookup(opts.drop_first(), a) {
                Some(o) => {
                    let i = choose|i: int|
                        0 <= i < opts.drop_first().len() && opts.drop_first()[i] == o
                            && opt_has_alias(o, a);
                    assert(opts[i + 1] == o);
                }
                None => {
                    assert forall|i: int| 0 <= i < opts.len() implies !opt_has_alias(
                        opts[i],
                        a,
                    ) by {
                        if i > 0 {
                            assert(opts.drop_first()[i - 1] == opts[i]);
                        }
                    }
                }
            }
        }
    }
}

/// What one compact declaration string declares.
pub ghost enum Decl {
    /// An option: `short/long#description`, or `alias#description:` where the
    /// trailing `:` makes the option consume the token that follows it.
    Opt { o: OptView },
    /// A required positional argument: `name#description`.
    Arg { name: Seq<char> },
    /// No `#` separates the name from the description.
    Bad,
}

/// How one compact declaration string reads. The part before the first `#`
/// names the item; a `/` in it splits a short alias from a long one, and the
/// canonical name is the long alias where one is given. A trailing `:` after
/// the description marks an option that consumes a value; without either `/`
/// or a trailing `:`, the declaration is a required positional argument.
pub open spec fn parse_decl(d: Seq<char>) -> Decl {
    match first_index(d, '#') {
        None => Decl::Bad,
        Some(h) => {
            let name_part = d.subrange(0, h);
            let has_val = d.len() > h + 1 && d.last() == ':';
            match first_index(name_part, '/') {
                Some(p) => {
                    let short = name_part.subrange(0, p);
                    let long = name_part.subrange(p + 1, name_part.len() as int);
                    Decl::Opt {
                        o: OptView {
                            name: if long.len() > 0 {
                                long
                            } else {
                                short
                            },
                            short: Some(short),
                            long: Some(long),
                            has_arg: has_val,
                        },
                    }
                }
                None => {
                    if has_val {
                        Decl::Opt {
                            o: OptView {
                                name: name_part,
                                short: Some(name_part),
                                long: None,
                                has_arg: true,
                            },
                        }
                    } else {
                        Decl::Arg { name: name_part }
                    }
                }
            }
        }
    }
}

/// The option descriptors declared by `ds`, in declaration order.
pub open spec fn declared_opts(ds: Seq<Seq<char>>) -> Seq<OptView>
    decreases ds.len(),
{
    if ds.len() == 0 {
        Seq::empty()
    } else {
        let rest = declared_opts(ds.drop_last());
        match parse_decl(ds.last()) {
            Decl::Opt { o } => rest.push(o),
            _ => rest,
        }
    }
}

/// The positional argument names declared by `ds`, in declaration order.
pub open spec fn declared_args(ds: Seq<Seq<char>>) -> Seq<Seq<char>>
    decreases ds.len(),
{
    if ds.len() == 0 {
        Seq::empty()
    } else {
        let rest = declared_args(ds.drop_last());
        match parse_decl(ds.last()) {
            Decl::Arg { name } => rest.push(name),
            _ => rest,
        }
    }
}

/// Whether every declaration in `ds` is well-formed.
pub open spec fn all_wellformed(ds: Seq<Seq<char>>) -> bool {
    forall|i: int| 0 <= i < ds.len() ==> !(parse_decl(ds[i]) is Bad)
}

/// The character sequences of a list of string slices.
pub open spec fn str_views(s: Seq<&str>) -> Seq<Seq<char>> {
    s.map_values(|t: &str| t@)
}

/// An exec-side reading of one declaration.
enum ParsedDecl {
    POpt(Opt),
    PArg(String),
    PBad,
}

/// Read one compact declaration string.
fn parse_one(d: &str) -> (r: ParsedDecl)
    ensures
        match r {
            ParsedDecl::POpt(o) => parse_decl(d@) == (Decl::Opt { o: o@ }),
            ParsedDecl::PArg(name) => parse_decl(d@) == (Decl::Arg { name: name@ }),
            ParsedDecl::PBad => parse_decl(d@) is Bad,
        },
{
    let dlen = d.unicode_len();
    match index_of(d, '#') {
        None => ParsedDecl::PBad,
        Some(h) => {
            proof {
                lemma_first_index(d@, '#');
            }
            let has_val = dlen > h + 1 && d.get_char(dlen - 1) == ':';
            let name_part = d.substring_char(0, h);
            match index_of(name_part, '/') {
                Some(p) => {
                    proof {
                        lemma_first_index(name_part@, '/');
                    }
                    let short = String::from_str(name_part.substring_char(0, p));
                    let long = String::from_str(name_part.substring_char(p + 1, h));
                    let name = if long.unicode_len() > 0 {
                        long.clone()
                    } else {
                        short.clone()
                    };
                    ParsedDecl::POpt(
                        Opt { name, short: Some(short), long: Some(long), has_arg: has_val },
                    )
                }
                None => {
                    if has_val {
                        let name = String::from_str(name_part);
                        ParsedDecl::POpt(
                            Opt { name: name.clone(), short: Some(name), long: None, has_arg: true },
                        )
                    } else {
                        ParsedDecl::PArg(String::from_str(name_part))
                    }
                }
            }
        }
    }
}

/// The declared schema: the option descriptors, and the queue of positional
/// argument names not yet consumed by a match in progress.
#[derive(Debug)]
pub struct Vars {
    program: String,
    opts: Vec<Opt>,
    args: Vec<String>,
    next_arg: usize,
}

impl Vars {
    /// The positional cursor never runs past the declared names.
    pub closed spec fn wf(&self) -> bool {
        self.next_arg <= self.args@.len()
    }

    /// The declared option descriptors, in declaration order.
    pub closed spec fn opts_seq(&self) -> Seq<OptView> {
        self.opts@.map_values(|o: Opt| o@)
    }

    /// The canonical names of the positional arguments not yet consumed.
    pub closed spec fn remaining_args(&self) -> Seq<Seq<char>> {
        self.args@.map_values(|s: String| s@).skip(self.next_arg as int)
    }

    /// The program name the schema was declared for.
    pub closed spec fn program_view(&self) -> Seq<char> {
        self.program@
    }

    pub fn program(&self) -> (r: &String)
        ensures
            r@ == self.program_view(),
    {
        &self.program
    }

    /// Whether some declared option carries this alias.
    pub fn contains_opt(&self, alias: &String) -> (r: bool)
        ensures
            r == (lookup(self.opts_seq(), alias@) is Some),
    {
        self.get_opt(alias).is_some()
    }

    /// The first declared option carrying this alias, if any.
    pub fn get_opt(&self, alias: &String) -> (r: Option<&Opt>)
        ensures
            match r {
                Some(o) => lookup(self.opts_seq(), alias@) == Some(o@),
                None => lookup(self.opts_seq(), alias@) is None,
            },
    {
        proof {
            assert(self.opts_seq().skip(0) =~= self.opts_seq());
        }
        let n = self.opts.len();
        let mut i: usize = 0;
        while i < n
            invariant
                n == self.opts@.len(),
                i <= n,
                lookup(self.opts_seq(), alias@) == lookup(
                    self.opts_seq().skip(i as int),
                    alias@,
                ),
            decreases n - i,
        {
            let o = &self.opts[i];
            if opt_matches(o, alias) {
                proof {
                    assert(self.opts_seq().skip(i as int)[0] == o@);
                }
                return Some(o);
            }
            proof {
                assert(self.opts_seq().skip(i as int)[0] == o@);
                assert(self.opts_seq().skip(i as int).drop_first() =~= self.opts_seq().skip(
                    i + 1,
                ));
            }
            i += 1;
        }
        proof {
            assert(self.opts_seq().skip(n as int) =~= Seq::<OptView>::empty());
        }
        None
    }

    /// Pop the next positional argument name, in declaration order.
    pub fn get_arg(&mut self) -> (r: Option<String>)
        requires
            old(self).wf(),
        ensures
            final(self).wf(),
            final(self).opts_seq() == old(self).opts_seq(),
            match r {
                Some(name) => old(self).remaining_args().len() > 0 && name@ == old(
                    self,
                ).remaining_args()[0] && final(self).remaining_args() == old(
                    self,
                ).remaining_args().drop_first(),
                None => old(self).remaining_args().len() == 0 && *final(self) == *old(self),
            },
    {
        if self.next_arg < self.args.len() {
            let name = self.args[self.next_arg].clone();
            self.next_arg = self.next_arg + 1;
            proof {
                let base = self.args@.map_values(|s: String| s@);
                assert(base.skip(self.next_arg as int) =~= base.skip(
                    old(self).next_arg as int,
                ).drop_first());
                assert(name@ == base.skip(old(self).next_arg as int)[0]);
            }
            Some(name)
        } else {
            None
        }
    }

    /// How many declared positional arguments are still unconsumed.
    pub fn arg_len(&self) -> (r: usize)
        requires
            self.wf(),
        ensures
            r == self.remaining_args().len(),
    {
        self.args.len() - self.next_arg
    }
}

/// Whether the descriptor carries this alias.
fn opt_matches(o: &Opt, alias: &String) -> (r: bool)
    ensures
        r == opt_has_alias(o@, alias@),
{
    let short_hit = match &o.short {
        Some(s) => str_eq(s.as_str(), alias.as_str()),
        None => false,
    };
    if short_hit {
        true
    } else {
        match &o.long {
            Some(l) => str_eq(l.as_str(), alias.as_str()),
            None => false,
        }
    }
}

/// Build the schema registry for `program_name` from compact declaration
/// strings: the declared options and positional names, each in declaration
/// order. The first declaration without a `#` fails the whole build with
/// `InvalidArgument` carrying that declaration.
pub fn vars(program_name: &str, opts: &Vec<&str>) -> (r: Result<Vars, Error>)
    ensures
        match r {
            Ok(v) => {
                &&& all_wellformed(str_views(opts@))
                &&& v.wf()
                &&& v.opts_seq() == declared_opts(str_views(opts@))
                &&& v.remaining_args() == declared_args(str_views(opts@))
                &&& v.program_view() == program_name@
            },
            Err(e) => {
                &&& e.kind == ErrorKind::InvalidArgument
                &&& exists|i: int|
                    0 <= i < str_views(opts@).len() && #[trigger] parse_decl(
                        str_views(opts@)[i],
                    ) is Bad && e.arg@ == str_views(opts@)[i] && (forall|j: int|
                        0 <= j < i ==> !(parse_decl(str_views(opts@)[j]) is Bad))
            },
        },
{
    let ghost ds = str_views(opts@);
    let mut opt_vec: Vec<Opt> = Vec::new();
    let mut arg_vec: Vec<String> = Vec::new();
    let n = opts.len();
    let mut i: usize = 0;
    while i < n
        invariant
            n == opts@.len(),
            i <= n,
            ds == str_views(opts@),
            opt_vec@.map_values(|o: Opt| o@) == declared_opts(ds.subrange(0, i as int)),
            arg_vec@.map_values(|s: String| s@) == declared_args(ds.subrange(0, i as int)),
            forall|j: int| 0 <= j < i ==> !(parse_decl(ds[j]) is Bad),
        decreases n - i,
    {
        let d: &str = opts[i];
        match parse_one(d) {
            ParsedDecl::POpt(o) => {
                opt_vec.push(o);
            },
            ParsedDecl::PArg(name) => {
                arg_vec.push(name);
            },
            ParsedDecl::PBad => {
                proof {
                    assert(0 <= i < ds.len() && parse_decl(ds[i as int]) is Bad);
                }
                return Err(Error::new(ErrorKind::InvalidArgument, String::from_str(d)));
            },
        }
        proof {
            assert(ds.subrange(0, i + 1).drop_last() =~= ds.subrange(0, i as int));
            assert(ds.subrange(0, i + 1).last() == ds[i as int]);
            assert(opt_vec@.map_values(|o: Opt| o@) =~= declared_opts(ds.subrange(0, i + 1)));
            assert(arg_vec@.map_values(|s: String| s@) =~= declared_args(ds.subrange(0, i + 1)));
        }
        i += 1;
    }
    proof {
        assert(ds.subrange(0, n as int) =~= ds);
    }
    let ghost final_opts = opt_vec@.map_values(|o: Opt| o@);
    let ghost final_args = arg_vec@.map_values(|s: String| s@);
    let v = Vars {
        program: String::from_str(program_name),
        opts: opt_vec,
        args: arg_vec,
        next_arg: 0,
    };
    proof {
        assert(v.opts_seq() == final_opts);
        assert(v.remaining_args() =~= final_args);
    }
    Ok(v)
}

} // verus!
