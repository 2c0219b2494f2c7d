use vstd::prelude::*;
use vstd::seq_lib::{to_multiset_build, to_multiset_insert, to_multiset_len};

verus! {

/// The kind of value an option takes.
#[derive(Clone, Copy, Debug, PartialEq, Eq, Structural)]
pub enum OptType {
    Bool,
    String,
    Int,
}

/// One switch that a command accepts, under one or more aliases.
pub struct Opt {
    pub name: &'static str,
    pub names: Vec<&'static str>,
    pub opt_type: OptType,
    pub description: &'static str,
}

/// The aliases of `s` whose byte length is `n`, in their order in `s`.
pub open spec fn of_len(s: Seq<&'static str>, n: usize) -> Seq<&'static str> {
    s.filter(|x: &'static str| x.len() == n)
}

/// No alias is longer than one that comes after it.
pub open spec fn sorted_by_len(s: Seq<&'static str>) -> bool {
    forall|i: int, j: int| 0 <= i < j < s.len() ==> s[i].len() <= s[j].len()
}

/// `out` is `inp` stably sorted by byte length: ordered by length, and the
/// aliases of each length appear in the order they had in `inp`.
pub open spec fn stably_sorted_by_len(out: Seq<&'static str>, inp: Seq<&'static str>) -> bool {
    &&& sorted_by_len(out)
    &&& forall|n: usize| #[trigger] of_len(out, n) == of_len(inp, n)
}

impl Opt {
    /// Every option holds at least one alias, and its canonical name among them.
    pub open spec fn wf(&self) -> bool {
        &&& self.names@.len() > 0
        &&& self.names@.contains(self.name)
        &&& sorted_by_len(self.names@)
    }

    /// A flag option; the first alias given is its canonical name.
    pub fn new_bool(names: Vec<&'static str>, desc: &'static str) -> (r: Self)
        requires
            names@.len() > 0,
        ensures
            r.wf(),
            r.name == names@[0],
            stably_sorted_by_len(r.names@, names@),
            r.names@.to_multiset() == names@.to_multiset(),
            r.names@.len() == names@.len(),
            r.opt_type == OptType::Bool,
            r.description == desc,
    {
        Self::new(names, OptType::Bool, desc)
    }

    /// An option of the given kind; the first alias given is its canonical
    /// name, and the aliases are kept stably sorted by byte length.
    pub fn new(names: Vec<&'static str>, opt_type: OptType, desc: &'static str) -> (r: Self)
        requires
            names@.len() > 0,
        ensures
            r.wf(),
            r.name == names@[0],
            stably_sorted_by_len(r.names@, names@),
            r.names@.to_multiset() == names@.to_multiset(),
            r.names@.len() == names@.len(),
            r.opt_type == opt_type,
            r.description == desc,
    {
        let canonical = names[0];
        let sorted = sort_by_len(names);
        proof {
            lemma_stable_sort_contains(sorted@, names@, 0);
            to_multiset_len(sorted@);
            to_multiset_len(names@);
        }
        Opt { name: canonical, names: sorted, opt_type, description: desc }
    }

    /// The canonical name: the first alias the option was built with.
    pub fn name(&self) -> (r: &'static str)
        ensures
            r == self.name,
    {
        self.name
    }
}

proof fn lemma_of_len_single(x: &'static str, n: usize)
    ensures
        of_len(seq![x], n) == (if x.len() == n { seq![x] } else { Seq::<&'static str>::empty() }),
{
    reveal_with_fuel(Seq::filter, 2);
    assert(seq![x].drop_last() =~= Seq::<&'static str>::empty());
    if x.len() == n {
        assert(of_len(seq![x], n) =~= seq![x]);
    } else {
        assert(of_len(seq![x], n) =~= Seq::<&'static str>::empty());
    }
}

proof fn lemma_of_len_none(s: Seq<&'static str>, n: usize)
    requires
        forall|k: int| 0 <= k < s.len() ==> s[k].len() != n,
    ensures
        of_len(s, n) == Seq::<&'static str>::empty(),
    decreases s.len(),
{
    reveal(Seq::filter);
    if s.len() > 0 {
        lemma_of_len_none(s.drop_last(), n);
    }
}

/// Inserting `x` where every earlier alias is no longer and every later one
/// is longer adds `x` at the end of the aliases of its own length.
proof fn lemma_of_len_insert(s: Seq<&'static str>, p: int, x: &'static str, n: usize)
    requires
        0 <= p <= s.len(),
        forall|k: int| p <= k < s.len() ==> s[k].len() > x.len(),
    ensures
        of_len(s.insert(p, x), n) == of_len(s, n) + of_len(seq![x], n),
{
    let a = s.take(p);
    let b = s.skip(p);
    assert(s =~= a + b);
    assert(s.insert(p, x) =~= a + (seq![x] + b));
    Seq::filter_distributes_over_add(a, b, |y: &'static str| y.len() == n);
    Seq::filter_distributes_over_add(seq![x], b, |y: &'static str| y.len() == n);
    Seq::filter_distributes_over_add(a, seq![x] + b, |y: &'static str| y.len() == n);
    lemma_of_len_single(x, n);
    if x.len() == n {
        lemma_of_len_none(b, n);
        assert(of_len(s, n) =~= of_len(a, n));
        assert(of_len(s.insert(p, x), n) =~= of_len(a, n) + seq![x]);
    } else {
        assert(of_len(seq![x] + b, n) =~= of_len(b, n));
    }
}

/// Every alias of the input survives a stable sort.
proof fn lemma_stable_sort_contains(out: Seq<&'static str>, inp: Seq<&'static str>, i: int)
    requires
        stably_sorted_by_len(out, inp),
        0 <= i < inp.len(),
    ensures
        out.contains(inp[i]),
{
    let n = inp[i].len();
    let pred = |x: &'static str| x.len() == n;
    inp.lemma_filter_contains(pred, i);
    assert(of_len(out, n) == of_len(inp, n));
    out.lemma_filter_contains_rev(pred, inp[i]);
}

/// Sorts aliases by byte length, keeping the order of aliases of equal length.
fn sort_by_len(names: Vec<&'static str>) -> (r: Vec<&'static str>)
    ensures
        stably_sorted_by_len(r@, names@),
        r@.to_multiset() == names@.to_multiset(),
{
    let mut out: Vec<&'static str> = Vec::new();
    let mut i: usize = 0;
    proof {
        assert(names@.take(0) =~= out@);
    }
    while i < names.len()
        invariant
            i <= names@.len(),
            sorted_by_len(out@),
            forall|n: usize| #[trigger] of_len(out@, n) == of_len(names@.take(i as int), n),
            out@.to_multiset() == names@.take(i as int).to_multiset(),
        decreases names@.len() - i,
    {
        let x = names[i];
        let xl = x.len();
        let mut p: usize = out.len();
        while p > 0 && out[p - 1].len() > xl
            invariant
                p <= out@.len(),
                forall|k: int| p <= k < out@.len() ==> out@[k].len() > xl,
            decreases p,
        {
            p = p - 1;
        }
        let ghost before = out@;
        out.insert(p, x);
        proof {
            assert(out@ == before.insert(p as int, x));
            assert forall|k: int| 0 <= k < p implies before[k].len() <= xl by {
                if k < p - 1 {
                    assert(before[k].len() <= before[p - 1].len());
                }
            }
            assert(names@.take(i as int + 1) =~= names@.take(i as int) + seq![x]);
            assert(names@.take(i as int + 1) =~= names@.take(i as int).push(x));
            to_multiset_insert(before, p as int, x);
            to_multiset_build(names@.take(i as int), x);
            assert forall|n: usize| #[trigger] of_len(out@, n) == of_len(
                names@.take(i as int + 1),
                n,
            ) by {
                lemma_of_len_insert(before, p as int, x, n);
                Seq::filter_distributes_over_add(
                    names@.take(i as int),
                    seq![x],
                    |y: &'static str| y.len() == n,
                );
            }
        }
        i = i + 1;
    }
    assert(names@.take(names@.len() as int) =~= names@);
    out
}

} // verus!
