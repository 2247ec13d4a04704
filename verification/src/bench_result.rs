//! A single benchmark measurement.
use vstd::prelude::*;

verus! {

/// A single benchmark result, as parsed from `cargo bench` output.
///
/// `M` is the type of the time measurements, which are in nanoseconds. The
/// library only carries them: every computation on their values is done by
/// the caller, so `M` may be any number type.
#[derive(Debug, Clone, PartialEq)]
pub struct BenchResult<M> {
    /// Benchmark function/test name
    pub name: String,
    /// Mean execution time in nanoseconds
    pub mean_ns: M,
    /// Median execution time in nanoseconds
    pub median_ns: M,
    /// Standard deviation in nanoseconds
    pub stddev_ns: M,
    /// Number of iterations performed
    pub iterations: u64,
}

impl<M> BenchResult<M> {
    /// A result with the given name and measurements.
    pub fn new(name: &str, mean_ns: M, median_ns: M, stddev_ns: M, iterations: u64) -> (r: Self)
        ensures
            r.name@ == name@,
            r.mean_ns == mean_ns,
            r.median_ns == median_ns,
            r.stddev_ns == stddev_ns,
            r.iterations == iterations,
    {
        BenchResult { name: name.to_owned(), mean_ns, median_ns, stddev_ns, iterations }
    }
}

impl<M: Copy> BenchResult<M> {
    /// An identical copy of this result.
    pub(crate) fn duplicate(&self) -> (r: Self)
        ensures
            r == *self,
    {
        BenchResult {
            name: self.name.clone(),
            mean_ns: self.mean_ns,
            median_ns: self.median_ns,
            stddev_ns: self.stddev_ns,
            iterations: self.iterations,
        }
    }
}

/// The names of `results`, in order.
pub open spec fn names_of<M>(results: Seq<BenchResult<M>>) -> Seq<Seq<char>> {
    results.map_values(|r: BenchResult<M>| r.name@)
}

/// The position of the last occurrence of `name` in `names`.
pub open spec fn last_index_of(names: Seq<Seq<char>>, name: Seq<char>) -> Option<int>
    decreases names.len(),
{
    if names.len() == 0 {
        None
    } else if names.last() == name {
        Some(names.len() - 1)
    } else {
        last_index_of(names.drop_last(), name)
    }
}

/// The last result in `results` with the given name.
pub open spec fn last_named<M>(results: Seq<BenchResult<M>>, name: Seq<char>) -> Option<
    BenchResult<M>,
> {
    match last_index_of(names_of(results), name) {
        Some(i) => Some(results[i]),
        None => None,
    }
}

/// The position of the first occurrence of `name` in `names`.
pub open spec fn first_index_of(names: Seq<Seq<char>>, name: Seq<char>) -> Option<int>
    decreases names.len(),
{
    if names.len() == 0 {
        None
    } else if names[0] == name {
        Some(0)
    } else {
        match first_index_of(names.drop_first(), name) {
            Some(i) => Some(i + 1),
            None => None,
        }
    }
}

/// The first result in `results` with the given name.
pub open spec fn first_named<M>(results: Seq<BenchResult<M>>, name: Seq<char>) -> Option<
    BenchResult<M>,
> {
    match first_index_of(names_of(results), name) {
        Some(i) => Some(results[i]),
        None => None,
    }
}

pub proof fn lemma_last_index_of(names: Seq<Seq<char>>, name: Seq<char>)
    ensures
        last_index_of(names, name) matches Some(i) ==> 0 <= i < names.len() && names[i] == name
            && forall|j: int| i < j < names.len() ==> names[j] != name,
        last_index_of(names, name) is None ==> !names.contains(name),
    decreases names.len(),
{
    if names.len() > 0 && names.last() != name {
        lemma_last_index_of(names.drop_last(), name);
        if let Some(i) = last_index_of(names, name) {
            assert(names[i] == names.drop_last()[i]);
            assert forall|j: int| i < j < names.len() implies names[j] != name by {
                if j < names.len() - 1 {
                    assert(names.drop_last()[j] == names[j]);
                }
            }
        } else {
            assert forall|j: int| 0 <= j < names.len() implies names[j] != name by {
                if j < names.len() - 1 {
                    assert(names.drop_last()[j] == names[j]);
                }
            }
        }
    }
}

pub proof fn lemma_first_index_of(names: Seq<Seq<char>>, name: Seq<char>)
    ensures
        first_index_of(names, name) matches Some(i) ==> 0 <= i < names.len() && names[i] == name
            && forall|j: int| 0 <= j < i ==> names[j] != name,
        first_index_of(names, name) is None ==> !names.contains(name),
    decreases names.len(),
{
    if names.len() > 0 && names[0] != name {
        lemma_first_index_of(names.drop_first(), name);
        if let Some(i) = first_index_of(names, name) {
            assert(names[i] == names.drop_first()[i - 1]);
            assert forall|j: int| 0 <= j < i implies names[j] != name by {
                if j > 0 {
                    assert(names.drop_first()[j - 1] == names[j]);
                }
            }
        } else {
            assert forall|j: int| 0 <= j < names.len() implies names[j] != name by {
                if j > 0 {
                    assert(names.drop_first()[j - 1] == names[j]);
                }
            }
        }
    }
}

/// Reordering results whose names are all different changes no name's
/// last result: it is the one result with that name, in either order.
pub proof fn lemma_reordering_keeps_last_named<M>(rs: Seq<BenchResult<M>>, rs2: Seq<BenchResult<M>>)
    requires
        names_of(rs).no_duplicates(),
        rs2.to_multiset() == rs.to_multiset(),
    ensures
        names_of(rs2).no_duplicates(),
        forall|n: Seq<char>| last_named(rs, n) == last_named(rs2, n),
{
    broadcast use vstd::seq_lib::group_to_multiset_ensures;

    let ns = names_of(rs);
    let ns2 = names_of(rs2);
    assert(rs.no_duplicates()) by {
        assert forall|i: int, j: int| 0 <= i < rs.len() && 0 <= j < rs.len() && i != j implies rs[i] != rs[j] by {
            assert(ns[i] != ns[j]);
        }
    }
    rs.lemma_multiset_has_no_duplicates();
    rs2.lemma_multiset_has_no_duplicates_conv();
    assert forall|e: BenchResult<M>| rs2.contains(e) implies rs.contains(e) by {
        vstd::seq_lib::to_multiset_contains(rs, e);
        vstd::seq_lib::to_multiset_contains(rs2, e);
    }
    assert forall|e: BenchResult<M>| rs.contains(e) implies rs2.contains(e) by {
        vstd::seq_lib::to_multiset_contains(rs, e);
        vstd::seq_lib::to_multiset_contains(rs2, e);
    }
    assert forall|i: int, j: int| 0 <= i < ns2.len() && 0 <= j < ns2.len() && i != j implies ns2[i] != ns2[j] by {
        if ns2[i] == ns2[j] {
            assert(rs2.contains(rs2[i]));
            assert(rs2.contains(rs2[j]));
            let p1 = choose|p: int| 0 <= p < rs.len() && rs[p] == rs2[i];
            let p2 = choose|p: int| 0 <= p < rs.len() && rs[p] == rs2[j];
            assert(ns[p1] == ns[p2]);
            assert(rs2[i] != rs2[j]);
        }
    }
    assert forall|n: Seq<char>| last_named(rs, n) == last_named(rs2, n) by {
        lemma_last_index_of(ns, n);
        lemma_last_index_of(ns2, n);
        match last_index_of(ns, n) {
            Some(i) => {
                assert(rs.contains(rs[i]));
                let j = choose|j: int| 0 <= j < rs2.len() && rs2[j] == rs[i];
                assert(ns2[j] == n);
                assert(ns2.contains(n));
                let k = last_index_of(ns2, n)->0;
                assert(k == j);
            },
            None => {
                if let Some(k) = last_index_of(ns2, n) {
                    assert(rs2.contains(rs2[k]));
                    let p = choose|p: int| 0 <= p < rs.len() && rs[p] == rs2[k];
                    assert(ns[p] == n);
                    assert(ns.contains(n));
                }
            },
        }
    }
}

/// Position of the last result in `results` named `name`.
pub(crate) fn last_position<M>(results: &[BenchResult<M>], name: &str) -> (r: Option<usize>)
    ensures
        r matches Some(i) ==> last_index_of(names_of(results@), name@) == Some(i as int),
        r is None ==> last_index_of(names_of(results@), name@) is None,
{
    let n = results.len();
    let mut i = n;
    let ghost names = names_of(results@);
    assert(names.take(n as int) =~= names);
    while i > 0
        invariant
            i <= n,
            n == results@.len(),
            names == names_of(results@),
            last_index_of(names, name@) == last_index_of(names.take(i as int), name@),
        decreases i,
    {
        let ghost pre = names.take(i as int);
        assert(pre.last() == results@[i - 1].name@);
        if crate::text::str_eq(results[i - 1].name.as_str(), name) {
            return Some(i - 1);
        }
        assert(pre.drop_last() =~= names.take(i - 1));
        i = i - 1;
    }
    None
}

/// Position of the first result in `results` named `name`.
pub(crate) fn first_position<M>(results: &[BenchResult<M>], name: &str) -> (r: Option<usize>)
    ensures
        r matches Some(i) ==> first_index_of(names_of(results@), name@) == Some(i as int),
        r is None ==> first_index_of(names_of(results@), name@) is None,
{
    let n = results.len();
    let mut i: usize = 0;
    let ghost names = names_of(results@);
    proof {
        lemma_first_index_of(names, name@);
    }
    while i < n
        invariant
            i <= n,
            n == results@.len(),
            names == names_of(results@),
            forall|j: int| 0 <= j < i ==> names[j] != name@,
        decreases n - i,
    {
        if crate::text::str_eq(results[i].name.as_str(), name) {
            proof {
                lemma_first_index_of(names, name@);
                assert(names[i as int] == name@);
                assert(names.contains(name@));
                let k = first_index_of(names, name@)->0;
                assert(names[k] == name@);
                assert(!(k < i));
                assert(!(i < k));
            }
            return Some(i);
        }
        i = i + 1;
    }
    None
}

} // verus!
