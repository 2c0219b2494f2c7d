use vstd::prelude::*;

use crate::argument::Argument;
use crate::opt::Opt;
use crate::text::same_text;

verus! {

/// Text that a help page is built from.
pub struct HelpText {
    /// Shown beside the command in a usage line.
    pub tagline: &'static str,
    /// Shown under DESCRIPTION.
    pub short_desc: &'static str,
    /// An example invocation.
    pub synopsis: &'static str,
}

/// A resolved invocation: option values by alias, then the positional values.
pub struct Request {
    pub options: Vec<(&'static str, String)>,
    pub arguments: Vec<String>,
}

/// Anything that can run against a request and show its own definition.
pub trait Command<F> {
    /// Whether the command may be run on `req`.
    spec fn ready(&self, req: &Request) -> bool;

    fn run(&self, req: &Request) -> Result<(), String>
        requires
            self.ready(req),
    ;

    fn get_def(&self) -> &CommandDefinition<F>;
}

/// One command or subcommand: its options, positional slots, help text,
/// subcommands, and the callback `run` that executes it.
pub struct CommandDefinition<F> {
    pub name: &'static str,
    pub options: Vec<Opt>,
    pub arguments: Vec<Argument>,
    pub help_text: HelpText,
    pub subcommands: Vec<CommandDefinition<F>>,
    pub run: F,
}

/// `o` accepts an alias spelled `name`.
pub open spec fn has_alias(o: Opt, name: Seq<char>) -> bool {
    exists|k: int| 0 <= k < o.names@.len() && (#[trigger] o.names@[k])@ == name
}

/// `opts[i]` is the first option that accepts `name`.
pub open spec fn first_owner(opts: Seq<Opt>, name: Seq<char>, i: int) -> bool {
    &&& 0 <= i < opts.len()
    &&& has_alias(opts[i], name)
    &&& forall|j: int| 0 <= j < i ==> !has_alias(#[trigger] opts[j], name)
}

/// One pair for each alias of `o`, in the order of its aliases.
pub open spec fn pairs_of(o: Opt) -> Seq<(&'static str, Opt)> {
    o.names@.map_values(|a: &'static str| (a, o))
}

/// The alias-to-option projection: one pair per alias, grouped by option,
/// options in their stored order.
pub open spec fn alias_pairs(opts: Seq<Opt>) -> Seq<(&'static str, Opt)>
    decreases opts.len(),
{
    if opts.len() == 0 {
        Seq::empty()
    } else {
        alias_pairs(opts.drop_last()) + pairs_of(opts.last())
    }
}

/// The number of aliases over all of `opts`.
pub open spec fn alias_count(opts: Seq<Opt>) -> nat
    decreases opts.len(),
{
    if opts.len() == 0 {
        0
    } else {
        alias_count(opts.drop_last()) + opts.last().names@.len()
    }
}

/// `subs[k]` is named `name`, and no later entry is.
pub open spec fn last_named<F>(subs: Seq<CommandDefinition<F>>, name: Seq<char>, k: int) -> bool {
    &&& 0 <= k < subs.len()
    &&& subs[k].name@ == name
    &&& forall|j: int| k < j < subs.len() ==> (#[trigger] subs[j]).name@ != name
}

/// `s` holds an entry named `name`.
pub open spec fn names_any<F>(s: Seq<CommandDefinition<F>>, name: Seq<char>) -> bool {
    exists|j: int| 0 <= j < s.len() && (#[trigger] s[j]).name@ == name
}

/// The entries of `s` that no later entry shares a name with, in their order
/// in `s`: the subcommand table built from `s`.
pub open spec fn last_entries<F>(s: Seq<CommandDefinition<F>>) -> Seq<CommandDefinition<F>>
    decreases s.len(),
{
    if s.len() == 0 {
        s
    } else if names_any(s.skip(1), s[0].name@) {
        last_entries(s.skip(1))
    } else {
        seq![s[0]] + last_entries(s.skip(1))
    }
}

impl<F: Fn(&Request) -> Result<(), String>> CommandDefinition<F> {
    /// A command; of subcommands that share a name only the last one given
    /// is kept.
    pub fn new(
        name: &'static str,
        options: Vec<Opt>,
        arguments: Vec<Argument>,
        help_text: HelpText,
        subcommands: Vec<CommandDefinition<F>>,
        run: F,
    ) -> (r: Self)
        ensures
            r.name == name,
            r.options@ == options@,
            r.arguments@ == arguments@,
            r.help_text == help_text,
            r.subcommands@ == last_entries(subcommands@),
            r.run == run,
    {
        let subcommands = keep_last(subcommands);
        CommandDefinition { name, options, arguments, help_text, subcommands, run }
    }

    pub fn name(&self) -> (r: &'static str)
        ensures
            r == self.name,
    {
        self.name
    }

    /// Every alias paired with the option that owns it.
    pub fn options(&self) -> (r: Vec<(&'static str, &Opt)>)
        ensures
            r@.len() == alias_pairs(self.options@).len(),
            forall|p: int|
                0 <= p < r@.len() ==> (r@[p].0, *r@[p].1) == #[trigger] alias_pairs(
                    self.options@,
                )[p],
    {
        let mut v: Vec<(&'static str, &Opt)> = Vec::new();
        let mut i: usize = 0;
        while i < self.options.len()
            invariant
                i <= self.options@.len(),
                v@.len() == alias_pairs(self.options@.take(i as int)).len(),
                forall|p: int|
                    0 <= p < v@.len() ==> (v@[p].0, *v@[p].1) == #[trigger] alias_pairs(
                        self.options@.take(i as int),
                    )[p],
            decreases self.options@.len() - i,
        {
            let opt = &self.options[i];
            let ghost base = alias_pairs(self.options@.take(i as int));
            let mut j: usize = 0;
            while j < opt.names.len()
                invariant
                    i < self.options@.len(),
                    *opt == self.options@[i as int],
                    j <= opt.names@.len(),
                    v@.len() == base.len() + j,
                    forall|p: int|
                        0 <= p < v@.len() ==> (v@[p].0, *v@[p].1) == #[trigger] (base + pairs_of(
                            *opt,
                        ))[p],
                decreases opt.names@.len() - j,
            {
                v.push((opt.names[j], opt));
                j = j + 1;
            }
            proof {
                assert(self.options@.take(i as int + 1).drop_last() =~= self.options@.take(
                    i as int,
                ));
            }
            i = i + 1;
        }
        proof {
            assert(self.options@.take(self.options@.len() as int) =~= self.options@);
        }
        v
    }

    /// The first option, in stored order, that accepts `name`.
    pub fn get_option(&self, name: &str) -> (r: Option<&Opt>)
        ensures
            match r {
                None => forall|i: int|
                    0 <= i < self.options@.len() ==> !has_alias(#[trigger] self.options@[i], name@),
                Some(o) => exists|i: int|
                    first_owner(self.options@, name@, i) && *o == #[trigger] self.options@[i],
            },
    {
        let mut i: usize = 0;
        while i < self.options.len()
            invariant
                i <= self.options@.len(),
                forall|j: int| 0 <= j < i ==> !has_alias(#[trigger] self.options@[j], name@),
            decreases self.options@.len() - i,
        {
            let opt = &self.options[i];
            let mut k: usize = 0;
            while k < opt.names.len()
                invariant
                    i < self.options@.len(),
                    *opt == self.options@[i as int],
                    k <= opt.names@.len(),
                    forall|j: int| 0 <= j < i ==> !has_alias(#[trigger] self.options@[j], name@),
                    forall|j: int| 0 <= j < k ==> (#[trigger] opt.names@[j])@ != name@,
                decreases opt.names@.len() - k,
            {
                if same_text(name, opt.names[k]) {
                    assert(has_alias(self.options@[i as int], name@));
                    assert(first_owner(self.options@, name@, i as int));
                    return Some(opt);
                }
                k = k + 1;
            }
            i = i + 1;
        }
        None
    }

    /// The subcommand named exactly `subcmd`, if the table holds one.
    pub fn subcommand(&self, subcmd: &str) -> (r: Option<&CommandDefinition<F>>)
        ensures
            match r {
                None => forall|k: int|
                    0 <= k < self.subcommands@.len() ==> (#[trigger] self.subcommands@[k]).name@
                        != subcmd@,
                Some(c) => exists|k: int|
                    last_named(self.subcommands@, subcmd@, k) && *c == #[trigger] self.subcommands@[k],
            },
    {
        let mut k: usize = self.subcommands.len();
        while k > 0
            invariant
                k <= self.subcommands@.len(),
                forall|j: int|
                    k <= j < self.subcommands@.len() ==> (#[trigger] self.subcommands@[j]).name@
                        != subcmd@,
            decreases k,
        {
            k = k - 1;
            let c = &self.subcommands[k];
            if same_text(c.name, subcmd) {
                assert(last_named(self.subcommands@, subcmd@, k as int));
                return Some(c);
            }
        }
        None
    }

    /// The positional slots, in their stored order.
    pub fn arguments(&self) -> (r: &[Argument])
        ensures
            r@ == self.arguments@,
    {
        self.arguments.as_slice()
    }

    /// Runs the callback on `req` and hands back what it returned.
    pub fn run(&self, req: &Request) -> (r: Result<(), String>)
        requires
            call_requires(self.run, (req,)),
        ensures
            call_ensures(self.run, (req,), r),
    {
        (self.run)(req)
    }
}

impl<F: Fn(&Request) -> Result<(), String>> Command<F> for CommandDefinition<F> {
    open spec fn ready(&self, req: &Request) -> bool {
        call_requires(self.run, (req,))
    }

    fn run(&self, req: &Request) -> (r: Result<(), String>)
        ensures
            call_ensures(self.run, (req,), r),
    {
        (self.run)(req)
    }

    fn get_def(&self) -> (r: &CommandDefinition<F>)
        ensures
            *r == *self,
    {
        self
    }
}

proof fn lemma_alias_pairs_len(opts: Seq<Opt>)
    ensures
        alias_pairs(opts).len() == alias_count(opts),
    decreases opts.len(),
{
    if opts.len() > 0 {
        lemma_alias_pairs_len(opts.drop_last());
    }
}

/// Each pair of the projection joins an option to one of its own aliases.
proof fn lemma_alias_pairs_owned(opts: Seq<Opt>)
    ensures
        forall|p: int|
            0 <= p < alias_pairs(opts).len() ==> exists|j: int|
                0 <= j < opts.len() && #[trigger] alias_pairs(opts)[p].1 == opts[j]
                    && opts[j].names@.contains(alias_pairs(opts)[p].0),
    decreases opts.len(),
{
    if opts.len() > 0 {
        let front = opts.drop_last();
        lemma_alias_pairs_owned(front);
        let ps = alias_pairs(opts);
        assert forall|p: int| 0 <= p < ps.len() implies exists|j: int|
            0 <= j < opts.len() && #[trigger] ps[p].1 == opts[j] && opts[j].names@.contains(
                ps[p].0,
            ) by {
            let n = alias_pairs(front).len() as int;
            if p < n {
                assert(ps[p] == alias_pairs(front)[p]);
                let j = choose|j: int|
                    0 <= j < front.len() && #[trigger] alias_pairs(front)[p].1 == front[j]
                        && front[j].names@.contains(alias_pairs(front)[p].0);
                assert(opts[j] == front[j]);
            } else {
                let k = p - n;
                assert(ps[p] == pairs_of(opts.last())[k]);
                assert(opts.last().names@[k] == ps[p].0);
                assert(ps[p].1 == opts[opts.len() - 1]);
            }
        }
    }
}

/// Each alias of each option appears in the projection, joined to that option.
proof fn lemma_alias_pairs_complete(opts: Seq<Opt>, i: int, k: int)
    requires
        0 <= i < opts.len(),
        0 <= k < opts[i].names@.len(),
    ensures
        alias_pairs(opts).contains((opts[i].names@[k], opts[i])),
    decreases opts.len(),
{
    let front = opts.drop_last();
    let n = alias_pairs(front).len() as int;
    if i < opts.len() - 1 {
        lemma_alias_pairs_complete(front, i, k);
        let p = choose|p: int|
            0 <= p < alias_pairs(front).len() && alias_pairs(front)[p] == (
                front[i].names@[k],
                front[i],
            );
        assert(alias_pairs(opts)[p] == alias_pairs(front)[p]);
    } else {
        assert(alias_pairs(opts)[n + k] == pairs_of(opts.last())[k]);
    }
}

/// The projection that `options` returns holds one pair per alias: its length
/// is the number of aliases over all options, every alias of every option
/// appears joined to that option, and every pair joins an option to an alias
/// of its own.
pub proof fn options_one_pair_per_alias<F>(d: CommandDefinition<F>)
    ensures
        alias_pairs(d.options@).len() == alias_count(d.options@),
        forall|i: int, k: int|
            0 <= i < d.options@.len() && 0 <= k < d.options@[i].names@.len()
                ==> alias_pairs(d.options@).contains((d.options@[i].names@[k], d.options@[i])),
        forall|p: int|
            0 <= p < alias_pairs(d.options@).len() ==> exists|j: int|
                0 <= j < d.options@.len() && #[trigger] alias_pairs(d.options@)[p].1
                    == d.options@[j] && d.options@[j].names@.contains(
                    alias_pairs(d.options@)[p].0,
                ),
{
    lemma_alias_pairs_len(d.options@);
    lemma_alias_pairs_owned(d.options@);
    assert forall|i: int, k: int|
        0 <= i < d.options@.len() && 0 <= k < d.options@[i].names@.len() implies alias_pairs(
        d.options@,
    ).contains((d.options@[i].names@[k], d.options@[i])) by {
        lemma_alias_pairs_complete(d.options@, i, k);
    }
}

/// An alias that option `i` alone accepts leads to that option both ways:
/// option `i` is the one and only first owner that `get_option` reports, and
/// in the projection every pair for the alias, of which there is at least
/// one, joins it to option `i`.
pub proof fn alias_lookup_agrees<F>(d: CommandDefinition<F>, i: int, k: int)
    requires
        0 <= i < d.options@.len(),
        0 <= k < d.options@[i].names@.len(),
        forall|j: int|
            0 <= j < d.options@.len() && j != i ==> !has_alias(
                #[trigger] d.options@[j],
                d.options@[i].names@[k]@,
            ),
    ensures
        first_owner(d.options@, d.options@[i].names@[k]@, i),
        forall|j: int| first_owner(d.options@, d.options@[i].names@[k]@, j) ==> j == i,
        alias_pairs(d.options@).contains((d.options@[i].names@[k], d.options@[i])),
        forall|p: int|
            0 <= p < alias_pairs(d.options@).len() && (#[trigger] alias_pairs(d.options@)[p]).0@
                == d.options@[i].names@[k]@ ==> alias_pairs(d.options@)[p].1 == d.options@[i],
{
    let opts = d.options@;
    let a = opts[i].names@[k];
    assert(has_alias(opts[i], a@));
    lemma_alias_pairs_complete(opts, i, k);
    lemma_alias_pairs_owned(opts);
    assert forall|p: int|
        0 <= p < alias_pairs(opts).len() && (#[trigger] alias_pairs(opts)[p]).0@ == a@ implies alias_pairs(
        opts,
    )[p].1 == opts[i] by {
        let j = choose|j: int|
            0 <= j < opts.len() && #[trigger] alias_pairs(opts)[p].1 == opts[j]
                && opts[j].names@.contains(alias_pairs(opts)[p].0);
        let m = choose|m: int|
            0 <= m < opts[j].names@.len() && opts[j].names@[m] == alias_pairs(opts)[p].0;
        assert(has_alias(opts[j], a@));
    }
}

/// A name is held by the table built from `s` exactly when `s` holds it.
proof fn lemma_last_entries_names<F>(s: Seq<CommandDefinition<F>>, name: Seq<char>)
    ensures
        names_any(last_entries(s), name) == names_any(s, name),
    decreases s.len(),
{
    if s.len() > 0 {
        let rest = s.skip(1);
        lemma_last_entries_names(rest, name);
        let le = last_entries(s);
        if names_any(s, name) {
            let j = choose|j: int| 0 <= j < s.len() && (#[trigger] s[j]).name@ == name;
            if j > 0 {
                assert(rest[j - 1] == s[j]);
                let m = choose|m: int|
                    0 <= m < last_entries(rest).len() && (#[trigger] last_entries(rest)[m]).name@
                        == name;
                if !names_any(rest, s[0].name@) {
                    assert(le[m + 1] == last_entries(rest)[m]);
                }
            } else if names_any(rest, s[0].name@) {
                let m = choose|m: int|
                    0 <= m < last_entries(rest).len() && (#[trigger] last_entries(rest)[m]).name@
                        == name;
            } else {
                assert(le[0] == s[0]);
            }
        }
        if names_any(le, name) {
            let m = choose|m: int| 0 <= m < le.len() && (#[trigger] le[m]).name@ == name;
            if names_any(rest, s[0].name@) {
                let j = choose|j: int| 0 <= j < rest.len() && (#[trigger] rest[j]).name@ == name;
                assert(s[j + 1] == rest[j]);
            } else if m == 0 {
                assert(s[0].name@ == name);
            } else {
                assert(last_entries(rest)[m - 1] == le[m]);
                let j = choose|j: int| 0 <= j < rest.len() && (#[trigger] rest[j]).name@ == name;
                assert(s[j + 1] == rest[j]);
            }
        }
    }
}

/// The table built from `s` holds each name at most once.
proof fn lemma_last_entries_unique<F>(s: Seq<CommandDefinition<F>>)
    ensures
        forall|m1: int, m2: int|
            0 <= m1 < m2 < last_entries(s).len() ==> (#[trigger] last_entries(s)[m1]).name@
                != (#[trigger] last_entries(s)[m2]).name@,
    decreases s.len(),
{
    if s.len() > 0 {
        let rest = s.skip(1);
        let le = last_entries(s);
        let lr = last_entries(rest);
        lemma_last_entries_unique(rest);
        lemma_last_entries_names(rest, s[0].name@);
        if !names_any(rest, s[0].name@) {
            assert forall|m1: int, m2: int|
                0 <= m1 < m2 < le.len() implies (#[trigger] le[m1]).name@ != (
                #[trigger] le[m2]).name@ by {
                assert(le[m2] == lr[m2 - 1]);
                if m1 > 0 {
                    assert(le[m1] == lr[m1 - 1]);
                } else if le[m2].name@ == s[0].name@ {
                    assert(names_any(lr, s[0].name@));
                }
            }
        }
    }
}

/// Each entry of the table built from `s` is the last entry of `s` under its
/// name.
proof fn lemma_last_entries_from_last<F>(s: Seq<CommandDefinition<F>>)
    ensures
        forall|m: int|
            0 <= m < last_entries(s).len() ==> exists|k: int|
                last_named(s, last_entries(s)[m].name@, k) && #[trigger] last_entries(s)[m]
                    == s[k],
    decreases s.len(),
{
    if s.len() > 0 {
        let rest = s.skip(1);
        let le = last_entries(s);
        let lr = last_entries(rest);
        lemma_last_entries_from_last(rest);
        let kept = !names_any(rest, s[0].name@);
        assert forall|m: int| 0 <= m < le.len() implies exists|k: int|
            last_named(s, le[m].name@, k) && #[trigger] le[m] == s[k] by {
            if kept && m == 0 {
                assert(le[0] == s[0]);
                assert forall|j: int| 0 < j < s.len() implies (#[trigger] s[j]).name@
                    != s[0].name@ by {
                    assert(rest[j - 1] == s[j]);
                }
                assert(last_named(s, le[m].name@, 0));
            } else {
                let mr = if kept {
                    m - 1
                } else {
                    m
                };
                assert(le[m] == lr[mr]);
                let k = choose|k: int|
                    last_named(rest, lr[mr].name@, k) && #[trigger] lr[mr] == rest[k];
                assert(s[k + 1] == rest[k]);
                assert forall|j: int| k + 1 < j < s.len() implies (#[trigger] s[j]).name@
                    != le[m].name@ by {
                    assert(rest[j - 1] == s[j]);
                }
                assert(last_named(s, le[m].name@, k + 1));
            }
        }
    }
}

/// The last entry of `s` under each name is in the table built from `s`.
proof fn lemma_last_entries_keeps_last<F>(s: Seq<CommandDefinition<F>>)
    ensures
        forall|k: int| last_named(s, #[trigger] s[k].name@, k) ==> last_entries(s).contains(s[k]),
    decreases s.len(),
{
    if s.len() > 0 {
        let rest = s.skip(1);
        let le = last_entries(s);
        let lr = last_entries(rest);
        lemma_last_entries_keeps_last(rest);
        let kept = !names_any(rest, s[0].name@);
        assert forall|k: int| last_named(s, #[trigger] s[k].name@, k) implies le.contains(s[k]) by {
            if k == 0 {
                if !kept {
                    let j = choose|j: int|
                        0 <= j < rest.len() && (#[trigger] rest[j]).name@ == s[0].name@;
                    assert(s[j + 1] == rest[j]);
                }
                assert(le[0] == s[0]);
            } else {
                assert(rest[k - 1] == s[k]);
                assert forall|j: int| k - 1 < j < rest.len() implies (#[trigger] rest[j]).name@
                    != rest[k - 1].name@ by {
                    assert(rest[j] == s[j + 1]);
                }
                assert(last_named(rest, rest[k - 1].name@, k - 1));
                let m = choose|m: int| 0 <= m < lr.len() && lr[m] == rest[k - 1];
                if kept {
                    assert(le[m + 1] == lr[m]);
                } else {
                    assert(le[m] == lr[m]);
                }
            }
        }
    }
}

/// Builds the subcommand table: of entries that share a name only the last
/// is kept.
fn keep_last<F>(subs: Vec<CommandDefinition<F>>) -> (r: Vec<CommandDefinition<F>>)
    ensures
        r@ == last_entries(subs@),
{
    let ghost s = subs@;
    let mut subs = subs;
    let mut out: Vec<CommandDefinition<F>> = Vec::new();
    proof {
        assert(s.skip(s.len() as int) =~= Seq::<CommandDefinition<F>>::empty());
        assert(subs@ =~= s.take(s.len() as int));
    }
    while subs.len() > 0
        invariant
            subs@.len() <= s.len(),
            subs@ == s.take(subs@.len() as int),
            out@ == last_entries(s.skip(subs@.len() as int)),
        decreases subs@.len(),
    {
        let ghost k = subs@.len() as int;
        let c = subs.pop().unwrap();
        let mut found = false;
        let mut m: usize = 0;
        while m < out.len()
            invariant
                m <= out@.len(),
                found == (exists|j: int| 0 <= j < m && (#[trigger] out@[j]).name@ == c.name@),
            decreases out@.len() - m,
        {
            if same_text(out[m].name, c.name) {
                found = true;
            }
            m = m + 1;
        }
        proof {
            let tail = s.skip(k - 1);
            assert(tail.skip(1) =~= s.skip(k));
            assert(tail[0] == c);
            lemma_last_entries_names(s.skip(k), c.name@);
            assert(subs@ =~= s.take(k - 1));
        }
        if !found {
            let ghost before = out@;
            out.insert(0, c);
            proof {
                assert(out@ =~= seq![c] + before);
            }
        }
    }
    proof {
        assert(s.skip(0) =~= s);
    }
    out
}

/// Some alias of `names` is spelled `name`, and none before it is.
proof fn lemma_first_alias(names: Seq<&'static str>, name: Seq<char>, k0: int)
    requires
        0 <= k0 < names.len(),
        names[k0]@ == name,
    ensures
        exists|k: int|
            0 <= k < names.len() && names[k]@ == name && forall|j: int|
                0 <= j < k ==> (#[trigger] names[j])@ != name,
    decreases k0,
{
    if exists|j: int| 0 <= j < k0 && (#[trigger] names[j])@ == name {
        let j = choose|j: int| 0 <= j < k0 && (#[trigger] names[j])@ == name;
        lemma_first_alias(names, name, j);
    }
}

/// When no option accepts `name`, no pair of the projection holds it.
proof fn lemma_no_owner_no_pair(opts: Seq<Opt>, name: Seq<char>)
    requires
        forall|j: int| 0 <= j < opts.len() ==> !has_alias(#[trigger] opts[j], name),
    ensures
        forall|p: int| 0 <= p < alias_pairs(opts).len() ==> (#[trigger] alias_pairs(opts)[p]).0@ != name,
{
    lemma_alias_pairs_owned(opts);
    assert forall|p: int| 0 <= p < alias_pairs(opts).len() implies (#[trigger] alias_pairs(
        opts,
    )[p]).0@ != name by {
        let j = choose|j: int|
            0 <= j < opts.len() && #[trigger] alias_pairs(opts)[p].1 == opts[j]
                && opts[j].names@.contains(alias_pairs(opts)[p].0);
        let m = choose|m: int|
            0 <= m < opts[j].names@.len() && opts[j].names@[m] == alias_pairs(opts)[p].0;
        if alias_pairs(opts)[p].0@ == name {
            assert(has_alias(opts[j], name));
        }
    }
}

/// The first pair of the projection that holds `name` joins it to the first
/// option that accepts it.
proof fn lemma_first_pair(opts: Seq<Opt>, name: Seq<char>, i: int)
    requires
        first_owner(opts, name, i),
    ensures
        exists|p: int|
            0 <= p < alias_pairs(opts).len() && alias_pairs(opts)[p].0@ == name && alias_pairs(
                opts,
            )[p].1 == opts[i] && forall|q: int|
                0 <= q < p ==> (#[trigger] alias_pairs(opts)[q]).0@ != name,
    decreases opts.len(),
{
    let front = opts.drop_last();
    let ps = alias_pairs(opts);
    let n = alias_pairs(front).len() as int;
    if i < opts.len() - 1 {
        assert forall|j: int| 0 <= j < i implies !has_alias(#[trigger] front[j], name) by {
            assert(front[j] == opts[j]);
        }
        assert(first_owner(front, name, i));
        lemma_first_pair(front, name, i);
        let p = choose|p: int|
            0 <= p < alias_pairs(front).len() && alias_pairs(front)[p].0@ == name && alias_pairs(
                front,
            )[p].1 == front[i] && forall|q: int|
                0 <= q < p ==> (#[trigger] alias_pairs(front)[q]).0@ != name;
        assert(ps[p] == alias_pairs(front)[p]);
        assert forall|q: int| 0 <= q < p implies (#[trigger] ps[q]).0@ != name by {
            assert(ps[q] == alias_pairs(front)[q]);
        }
    } else {
        let last = opts.last();
        assert forall|j: int| 0 <= j < front.len() implies !has_alias(#[trigger] front[j], name) by {
            assert(front[j] == opts[j]);
        }
        lemma_no_owner_no_pair(front, name);
        let k0 = choose|k: int| 0 <= k < last.names@.len() && (#[trigger] last.names@[k])@ == name;
        lemma_first_alias(last.names@, name, k0);
        let k = choose|k: int|
            0 <= k < last.names@.len() && last.names@[k]@ == name && forall|j: int|
                0 <= j < k ==> (#[trigger] last.names@[j])@ != name;
        assert(ps[n + k] == pairs_of(last)[k]);
        assert forall|q: int| 0 <= q < n + k implies (#[trigger] ps[q]).0@ != name by {
            if q < n {
                assert(ps[q] == alias_pairs(front)[q]);
            } else {
                assert(ps[q] == pairs_of(last)[q - n]);
                assert(last.names@[q - n]@ != name);
            }
        }
    }
}

/// For every name, the scan that `get_option` makes and the projection that
/// `options` returns agree: with no option accepting the name, no pair holds
/// it; otherwise the first pair that holds it joins it to the first option,
/// in stored order, that accepts it.
pub proof fn lookup_agrees_with_projection<F>(d: CommandDefinition<F>, name: Seq<char>)
    ensures
        (forall|j: int| 0 <= j < d.options@.len() ==> !has_alias(#[trigger] d.options@[j], name))
            ==> forall|p: int|
            0 <= p < alias_pairs(d.options@).len() ==> (#[trigger] alias_pairs(d.options@)[p]).0@
                != name,
        forall|i: int|
            #[trigger] first_owner(d.options@, name, i) ==> exists|p: int|
                0 <= p < alias_pairs(d.options@).len() && alias_pairs(d.options@)[p].0@ == name
                    && alias_pairs(d.options@)[p].1 == d.options@[i] && forall|q: int|
                    0 <= q < p ==> (#[trigger] alias_pairs(d.options@)[q]).0@ != name,
{
    if forall|j: int| 0 <= j < d.options@.len() ==> !has_alias(#[trigger] d.options@[j], name) {
        lemma_no_owner_no_pair(d.options@, name);
    }
    assert forall|i: int| #[trigger] first_owner(d.options@, name, i) implies exists|p: int|
        0 <= p < alias_pairs(d.options@).len() && alias_pairs(d.options@)[p].0@ == name
            && alias_pairs(d.options@)[p].1 == d.options@[i] && forall|q: int|
            0 <= q < p ==> (#[trigger] alias_pairs(d.options@)[q]).0@ != name by {
        lemma_first_pair(d.options@, name, i);
    }
}

/// At most one pair of the projection holds an alias that one option alone
/// accepts, and under one alias only.
proof fn lemma_one_pair(opts: Seq<Opt>, i: int, k: int)
    requires
        0 <= i < opts.len(),
        0 <= k < opts[i].names@.len(),
        forall|j: int|
            0 <= j < opts.len() && j != i ==> !has_alias(#[trigger] opts[j], opts[i].names@[k]@),
        forall|m: int|
            0 <= m < opts[i].names@.len() && (#[trigger] opts[i].names@[m])@ == opts[i].names@[k]@
                ==> m == k,
    ensures
        forall|q1: int, q2: int|
            0 <= q1 < alias_pairs(opts).len() && 0 <= q2 < alias_pairs(opts).len() && (
            #[trigger] alias_pairs(opts)[q1]).0@ == opts[i].names@[k]@ && (#[trigger] alias_pairs(
                opts,
            )[q2]).0@ == opts[i].names@[k]@ ==> q1 == q2,
    decreases opts.len(),
{
    let a = opts[i].names@[k]@;
    let front = opts.drop_last();
    let last = opts.last();
    let ps = alias_pairs(opts);
    let n = alias_pairs(front).len() as int;
    if i < opts.len() - 1 {
        assert(front[i] == opts[i]);
        assert forall|j: int| 0 <= j < front.len() && j != i implies !has_alias(
            #[trigger] front[j],
            front[i].names@[k]@,
        ) by {
            assert(front[j] == opts[j]);
        }
        lemma_one_pair(front, i, k);
        assert forall|q: int| 0 <= q < ps.len() && (#[trigger] ps[q]).0@ == a implies q < n by {
            if q >= n {
                assert(ps[q] == pairs_of(last)[q - n]);
                assert(last.names@[q - n]@ == a);
                assert(has_alias(opts[opts.len() - 1], a));
            }
        }
        assert forall|q1: int, q2: int|
            0 <= q1 < ps.len() && 0 <= q2 < ps.len() && (#[trigger] ps[q1]).0@ == a && (
            #[trigger] ps[q2]).0@ == a implies q1 == q2 by {
            assert(ps[q1] == alias_pairs(front)[q1]);
            assert(ps[q2] == alias_pairs(front)[q2]);
        }
    } else {
        assert forall|j: int| 0 <= j < front.len() implies !has_alias(#[trigger] front[j], a) by {
            assert(front[j] == opts[j]);
        }
        lemma_no_owner_no_pair(front, a);
        assert forall|q: int| 0 <= q < ps.len() && (#[trigger] ps[q]).0@ == a implies q == n + k by {
            if q < n {
                assert(ps[q] == alias_pairs(front)[q]);
            } else {
                assert(ps[q] == pairs_of(last)[q - n]);
                assert(last.names@[q - n]@ == a);
            }
        }
    }
}

/// An alias that one option alone accepts, and under that spelling once,
/// stands in exactly one pair of the projection, joined to that option.
pub proof fn unique_alias_one_pair<F>(d: CommandDefinition<F>, i: int, k: int)
    requires
        0 <= i < d.options@.len(),
        0 <= k < d.options@[i].names@.len(),
        forall|j: int|
            0 <= j < d.options@.len() && j != i ==> !has_alias(
                #[trigger] d.options@[j],
                d.options@[i].names@[k]@,
            ),
        forall|m: int|
            0 <= m < d.options@[i].names@.len() && (#[trigger] d.options@[i].names@[m])@
                == d.options@[i].names@[k]@ ==> m == k,
    ensures
        alias_pairs(d.options@).contains((d.options@[i].names@[k], d.options@[i])),
        forall|q1: int, q2: int|
            0 <= q1 < alias_pairs(d.options@).len() && 0 <= q2 < alias_pairs(d.options@).len() && (
            #[trigger] alias_pairs(d.options@)[q1]).0@ == d.options@[i].names@[k]@ && (
            #[trigger] alias_pairs(d.options@)[q2]).0@ == d.options@[i].names@[k]@ ==> q1 == q2,
{
    lemma_alias_pairs_complete(d.options@, i, k);
    lemma_one_pair(d.options@, i, k);
}

/// The table that `new` builds from `subs` holds each name at most once; each
/// of its entries is the last subcommand given under its name, each such
/// subcommand is in it, and it holds a name exactly when `subs` does.
pub proof fn subcommand_table_keeps_last<F>(subs: Seq<CommandDefinition<F>>)
    ensures
        forall|m1: int, m2: int|
            0 <= m1 < m2 < last_entries(subs).len() ==> (#[trigger] last_entries(subs)[m1]).name@
                != (#[trigger] last_entries(subs)[m2]).name@,
        forall|m: int|
            0 <= m < last_entries(subs).len() ==> exists|k: int|
                last_named(subs, last_entries(subs)[m].name@, k) && #[trigger] last_entries(
                    subs,
                )[m] == subs[k],
        forall|k: int|
            last_named(subs, #[trigger] subs[k].name@, k) ==> last_entries(subs).contains(subs[k]),
        forall|name: Seq<char>|
            #[trigger] names_any(last_entries(subs), name) == names_any(subs, name),
{
    lemma_last_entries_unique(subs);
    lemma_last_entries_from_last(subs);
    lemma_last_entries_keeps_last(subs);
    assert forall|name: Seq<char>| #[trigger]
        names_any(last_entries(subs), name) == names_any(subs, name) by {
        lemma_last_entries_names(subs, name);
    }
}

/// When two subcommands given to `new` share a name, the table holds exactly
/// one entry under that name, and it is a subcommand given at or after the
/// later of the two: the one that `subcommand` finds.
pub proof fn later_subcommand_wins<F>(
    d: CommandDefinition<F>,
    subs: Seq<CommandDefinition<F>>,
    i: int,
    j: int,
)
    requires
        d.subcommands@ == last_entries(subs),
        0 <= i < j < subs.len(),
        subs[i].name@ == subs[j].name@,
    ensures
        names_any(d.subcommands@, subs[i].name@),
        forall|m1: int, m2: int|
            0 <= m1 < d.subcommands@.len() && 0 <= m2 < d.subcommands@.len()
                && (#[trigger] d.subcommands@[m1]).name@ == subs[i].name@
                && (#[trigger] d.subcommands@[m2]).name@ == subs[i].name@ ==> m1 == m2,
        forall|m: int|
            0 <= m < d.subcommands@.len() && (#[trigger] d.subcommands@[m]).name@ == subs[i].name@
                ==> exists|k: int|
                j <= k && last_named(subs, subs[i].name@, k) && d.subcommands@[m] == subs[k],
{
    let n = subs[i].name@;
    subcommand_table_keeps_last(subs);
    assert(names_any(subs, n));
    assert forall|m1: int, m2: int|
        0 <= m1 < d.subcommands@.len() && 0 <= m2 < d.subcommands@.len()
            && (#[trigger] d.subcommands@[m1]).name@ == n && (#[trigger] d.subcommands@[m2]).name@
            == n implies m1 == m2 by {
        if m1 < m2 {
            assert(last_entries(subs)[m1].name@ != last_entries(subs)[m2].name@);
        } else if m2 < m1 {
            assert(last_entries(subs)[m2].name@ != last_entries(subs)[m1].name@);
        }
    }
    assert forall|m: int|
        0 <= m < d.subcommands@.len() && (#[trigger] d.subcommands@[m]).name@ == n implies exists|
        k: int,
    | j <= k && last_named(subs, n, k) && d.subcommands@[m] == subs[k] by {
        assert(last_entries(subs)[m] == d.subcommands@[m]);
        let k = choose|k: int|
            last_named(subs, last_entries(subs)[m].name@, k) && #[trigger] last_entries(subs)[m]
                == subs[k];
        if k < j {
            assert(subs[j].name@ == n);
        }
    }
}

} // verus!
