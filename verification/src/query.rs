//! Read-only questions to the knowledge base.
use crate::graph::Graph;
use crate::knowledge::{
    function_ids, holds_object, object_ids, FunctionID, FunctionName, NotFound, ObjectID,
    ParsedData,
};
use vstd::prelude::*;

verus! {

/// The order of pairs of integers: by the first component, then by the
/// second.
pub open spec fn pair_le(a: (usize, usize), b: (usize, usize)) -> bool {
    a.0 < b.0 || (a.0 == b.0 && a.1 <= b.1)
}

/// The pairs stand in ascending order.
pub open spec fn ascending(pairs: Seq<(usize, usize)>) -> bool {
    forall|i: int, j: int| 0 <= i < j < pairs.len() ==> pair_le(pairs[i], pairs[j])
}

/// Merges two ascending lists into one.
fn merge_pairs(left: &Vec<(usize, usize)>, right: &Vec<(usize, usize)>) -> (out: Vec<
    (usize, usize),
>)
    requires
        ascending(left@),
        ascending(right@),
        left.len() + right.len() <= usize::MAX,
    ensures
        ascending(out@),
        out@.to_multiset() == left@.to_multiset().add(right@.to_multiset()),
{
    broadcast use {vstd::seq_lib::to_multiset_build, vstd::multiset::group_multiset_axioms};

    let mut out: Vec<(usize, usize)> = Vec::new();
    let mut i: usize = 0;
    let mut j: usize = 0;
    proof {
        assert(left@.take(0) =~= Seq::empty());
        assert(right@.take(0) =~= Seq::empty());
        assert(out@ =~= Seq::empty());
        Seq::<(usize, usize)>::empty().to_multiset_ensures();
        assert(Seq::<(usize, usize)>::empty().to_multiset() =~= vstd::multiset::Multiset::empty());
        assert(out@.to_multiset() =~= left@.take(0).to_multiset().add(
            right@.take(0).to_multiset(),
        ));
    }
    while i < left.len() || j < right.len()
        invariant
            i <= left.len(),
            j <= right.len(),
            ascending(left@),
            ascending(right@),
            ascending(out@),
            out@.to_multiset() == left@.take(i as int).to_multiset().add(
                right@.take(j as int).to_multiset(),
            ),
            forall|k: int| 0 <= k < out@.len() && i < left.len() ==> pair_le(out@[k], left@[i as int]),
            forall|k: int|
                0 <= k < out@.len() && j < right.len() ==> pair_le(out@[k], right@[j as int]),
        decreases left.len() - i + (right.len() - j),
    {
        let ghost before = out@;
        let take_left = if j >= right.len() {
            true
        } else if i >= left.len() {
            false
        } else {
            let a = left[i];
            let b = right[j];
            a.0 < b.0 || (a.0 == b.0 && a.1 <= b.1)
        };
        if take_left {
            out.push(left[i]);
            proof {
                assert(i + 1 < left.len() ==> pair_le(left@[i as int], left@[i + 1]));
                assert(out@ == before.push(left@[i as int]));
                assert(left@.take(i + 1) =~= left@.take(i as int).push(left@[i as int]));
                let x = left@[i as int];
                let a = left@.take(i as int).to_multiset();
                let b = right@.take(j as int).to_multiset();
                vstd::seq_lib::to_multiset_build(before, x);
                vstd::seq_lib::to_multiset_build(left@.take(i as int), x);
                assert(out@.to_multiset() =~= a.add(b).insert(x));
                assert(left@.take(i + 1).to_multiset() =~= a.insert(x));
                assert(a.add(b).insert(x) =~= a.insert(x).add(b));
                assert(out@.to_multiset() =~= left@.take(i + 1).to_multiset().add(
                    right@.take(j as int).to_multiset(),
                ));
            }
            i += 1;
        } else {
            out.push(right[j]);
            proof {
                assert(j + 1 < right.len() ==> pair_le(right@[j as int], right@[j + 1]));
                assert(out@ == before.push(right@[j as int]));
                assert(right@.take(j + 1) =~= right@.take(j as int).push(right@[j as int]));
                let x = right@[j as int];
                let a = left@.take(i as int).to_multiset();
                let b = right@.take(j as int).to_multiset();
                vstd::seq_lib::to_multiset_build(before, x);
                vstd::seq_lib::to_multiset_build(right@.take(j as int), x);
                assert(out@.to_multiset() =~= a.add(b).insert(x));
                assert(right@.take(j + 1).to_multiset() =~= b.insert(x));
                assert(a.add(b).insert(x) =~= a.add(b.insert(x)));
                assert(out@.to_multiset() =~= left@.take(i as int).to_multiset().add(
                    right@.take(j + 1).to_multiset(),
                ));
            }
            j += 1;
        }
    }
    proof {
        assert(left@.take(left@.len() as int) =~= left@);
        assert(right@.take(right@.len() as int) =~= right@);
    }
    out
}

/// Sorts pairs of integers in ascending order: the result holds the same
/// pairs, each as often as before.
fn sort_pairs(pairs: Vec<(usize, usize)>) -> (out: Vec<(usize, usize)>)
    ensures
        ascending(out@),
        out@.to_multiset() == pairs@.to_multiset(),
    decreases pairs@.len(),
{
    if pairs.len() <= 1 {
        return pairs;
    }
    let mut left = pairs;
    let middle = left.len() / 2;
    let right = left.split_off(middle);
    proof {
        assert(pairs@ =~= left@ + right@);
        vstd::seq_lib::lemma_multiset_commutative(left@, right@);
    }
    let left = sort_pairs(left);
    let right = sort_pairs(right);
    proof {
        vstd::seq_lib::to_multiset_len(left@);
        vstd::seq_lib::to_multiset_len(right@);
        vstd::seq_lib::to_multiset_len(pairs@.subrange(0, middle as int));
        vstd::seq_lib::to_multiset_len(pairs@.subrange(middle as int, pairs@.len() as int));
    }
    merge_pairs(&left, &right)
}

/// A ranking of the functions by instruction count: it lists each function
/// with a positive count, with that count, and no other; larger counts
/// come first, and among equal counts the function interned first.
pub open spec fn is_ranking(g: Graph, ranking: Seq<(FunctionID, usize)>) -> bool {
    &&& forall|i: int|
        0 <= i < ranking.len() ==> {
            let f = (#[trigger] ranking[i]).0.0 as int;
            g.has_function(f) && ranking[i].1 == g.instructions[f] && ranking[i].1 > 0
        }
    &&& forall|f: int|
        g.has_function(f) && #[trigger] g.instructions[f] > 0 ==> exists|i: int|
            0 <= i < ranking.len() && (#[trigger] ranking[i]).0.0 == f
    &&& forall|i: int, j: int|
        0 <= i < j < ranking.len() ==> (#[trigger] ranking[i]).1 > (#[trigger] ranking[j]).1 || (
        ranking[i].1 == ranking[j].1 && ranking[i].0.0 < ranking[j].0.0)
}

/// The sort key of a function with a positive count.
pub open spec fn rank_key(g: Graph, f: int) -> (usize, usize) {
    ((usize::MAX - g.instructions[f]) as usize, f as usize)
}

/// Lists the sort keys of the functions with a positive count, in the
/// order of their identifiers.
fn rank_keys(parsed: &ParsedData) -> (keys: Vec<(usize, usize)>)
    requires
        parsed.wf(),
    ensures
        keys@.no_duplicates(),
        forall|k: int|
            0 <= k < keys@.len() ==> parsed@.has_function((#[trigger] keys@[k]).1 as int)
                && parsed@.instructions[keys@[k].1 as int] > 0 && keys@[k] == rank_key(
                parsed@,
                keys@[k].1 as int,
            ),
        forall|f: int|
            parsed@.has_function(f) && parsed@.instructions[f] > 0 ==> keys@.contains(
                #[trigger] rank_key(parsed@, f),
            ),
{
    let n = parsed.function_count();
    let mut keys: Vec<(usize, usize)> = Vec::new();
    let mut f: usize = 0;
    proof {
        parsed.lemma_wf();
    }
    while f < n
        invariant
            f <= n,
            n == parsed@.functions.len(),
            parsed.wf(),
            parsed@.wf(),
            forall|k: int|
                0 <= k < keys@.len() ==> (#[trigger] keys@[k]).1 < f
                    && parsed@.instructions[keys@[k].1 as int] > 0 && keys@[k] == rank_key(
                    parsed@,
                    keys@[k].1 as int,
                ),
            forall|i: int, j: int|
                0 <= i < j < keys@.len() ==> (#[trigger] keys@[i]).1 < (#[trigger] keys@[j]).1,
            forall|g: int|
                0 <= g < f && parsed@.instructions[g] > 0 ==> keys@.contains(
                    #[trigger] rank_key(parsed@, g),
                ),
        decreases n - f,
    {
        let ghost before = keys@;
        match parsed.instructions_of(FunctionID(f)) {
            Some(count) => {
                if count > 0 {
                    keys.push((usize::MAX - count, f));
                    proof {
                        assert(keys@[before.len() as int] == rank_key(parsed@, f as int));
                        assert forall|g: int|
                            0 <= g < f + 1 && parsed@.instructions[g] > 0 implies keys@.contains(
                            #[trigger] rank_key(parsed@, g),
                        ) by {
                            if g < f {
                                let k = choose|k: int|
                                    0 <= k < before.len() && before[k] == rank_key(parsed@, g);
                                assert(keys@[k] == rank_key(parsed@, g));
                            }
                        }
                    }
                }
            },
            None => {},
        }
        f += 1;
    }
    keys
}

/// The functions with a positive instruction count, each with its count:
/// larger counts first, and among equal counts the function that was
/// interned first.
pub fn functions_with_most_instructions(parsed: &ParsedData) -> (ranking: Vec<
    (FunctionID, usize),
>)
    requires
        parsed.wf(),
    ensures
        is_ranking(parsed@, ranking@),
{
    let n = parsed.function_count();
    let unsorted = rank_keys(parsed);
    let ghost listed = unsorted@;
    let keys = sort_pairs(unsorted);
    let ghost g = parsed@;
    proof {
        broadcast use vstd::seq_lib::to_multiset_contains;

        listed.lemma_multiset_has_no_duplicates();
        keys@.lemma_multiset_has_no_duplicates_conv();
        assert forall|k: int| 0 <= k < keys@.len() implies listed.contains(#[trigger] keys@[k]) by {
            assert(keys@.contains(keys@[k]));
            assert(keys@.to_multiset().count(keys@[k]) > 0);
        }
        assert forall|f: int| g.has_function(f) && g.instructions[f] > 0 implies keys@.contains(
            #[trigger] rank_key(g, f),
        ) by {
            assert(listed.contains(rank_key(g, f)));
            assert(listed.to_multiset().count(rank_key(g, f)) > 0);
        }
    }
    let mut ranking: Vec<(FunctionID, usize)> = Vec::new();
    let mut i: usize = 0;
    while i < keys.len()
        invariant
            i <= keys.len(),
            g == parsed@,
            parsed.wf(),
            n == g.functions.len(),
            ranking@.len() == i,
            forall|k: int| 0 <= k < keys@.len() ==> listed.contains(#[trigger] keys@[k]),
            forall|k: int|
                0 <= k < listed.len() ==> g.has_function((#[trigger] listed[k]).1 as int)
                    && g.instructions[listed[k].1 as int] > 0 && listed[k] == rank_key(
                    g,
                    listed[k].1 as int,
                ),
            forall|k: int|
                0 <= k < i ==> (#[trigger] ranking@[k]).0.0 == keys@[k].1 && ranking@[k].1
                    == usize::MAX - keys@[k].0,
        decreases keys.len() - i,
    {
        let key = keys[i];
        ranking.push((FunctionID(key.1), usize::MAX - key.0));
        i += 1;
    }
    proof {
        parsed.lemma_wf();
        let r = ranking@;
        assert forall|k: int| 0 <= k < r.len() implies {
            let f = (#[trigger] r[k]).0.0 as int;
            g.has_function(f) && r[k].1 == g.instructions[f] && r[k].1 > 0
        } by {
            let key = keys@[k];
            assert(listed.contains(key));
            let at = choose|at: int| 0 <= at < listed.len() && listed[at] == key;
            assert(listed[at] == rank_key(g, listed[at].1 as int));
        }
        assert forall|f: int| g.has_function(f) && #[trigger] g.instructions[f] > 0 implies exists|
            k: int,
        |
            0 <= k < r.len() && (#[trigger] r[k]).0.0 == f by {
            let key = rank_key(g, f);
            assert(keys@.contains(key));
            let k = choose|k: int| 0 <= k < keys@.len() && keys@[k] == key;
            assert(r[k].0.0 == f);
        }
        assert forall|a: int, b: int| 0 <= a < b < r.len() implies (#[trigger] r[a]).1 > (
        #[trigger] r[b]).1 || (r[a].1 == r[b].1 && r[a].0.0 < r[b].0.0) by {
            assert(pair_le(keys@[a], keys@[b]));
            assert(keys@[a] != keys@[b]);
            assert(listed.contains(keys@[a]));
            assert(listed.contains(keys@[b]));
        }
    }
    ranking
}

/// A function is present in all analyzed objects if instructions have
/// been counted for it and the objects that define it are the objects
/// that have been parsed: there is one at least, each of them has been
/// parsed, and every parsed object is among them. Objects that are
/// registered but not yet parsed do not count.
pub open spec fn present_in_all(g: Graph, f: int) -> bool {
    &&& g.instructions[f] > 0
    &&& g.defined_in[f].len() > 0
    &&& forall|k: int|
        0 <= k < g.defined_in[f].len() ==> g.has_object(#[trigger] g.defined_in[f][k])
            && g.parsed[g.defined_in[f][k]]
    &&& forall|o: int| g.has_object(o) && g.parsed[o] ==> #[trigger] g.defined_in[f].contains(o)
}

/// Whether function `f` is present in all analyzed objects.
fn is_present_in_all(parsed: &ParsedData, f: FunctionID) -> (b: bool)
    requires
        parsed.wf(),
        parsed@.has_function(f.0 as int),
    ensures
        b == present_in_all(parsed@, f.0 as int),
{
    let ghost g = parsed@;
    match parsed.instructions_of(f) {
        Some(count) => {
            if count == 0 {
                return false;
            }
        },
        None => {
            return false;
        },
    }
    match parsed.objects_of(f) {
        Some(list) => {
            if list.len() == 0 {
                return false;
            }
            let mut k: usize = 0;
            while k < list.len()
                invariant
                    k <= list.len(),
                    g == parsed@,
                    parsed.wf(),
                    object_ids(list@) == g.defined_in[f.0 as int],
                    forall|j: int|
                        0 <= j < k ==> g.has_object(#[trigger] g.defined_in[f.0 as int][j])
                            && g.parsed[g.defined_in[f.0 as int][j]],
                decreases list.len() - k,
            {
                proof {
                    assert(object_ids(list@)[k as int] == list@[k as int].0);
                }
                match parsed.is_parsed(list[k]) {
                    Some(true) => {},
                    _ => {
                        return false;
                    },
                }
                k += 1;
            }
            let n = parsed.object_count();
            let mut o: usize = 0;
            while o < n
                invariant
                    o <= n,
                    n == g.objects.len(),
                    g == parsed@,
                    parsed.wf(),
                    object_ids(list@) == g.defined_in[f.0 as int],
                    forall|j: int|
                        0 <= j < g.defined_in[f.0 as int].len() ==> g.has_object(
                            #[trigger] g.defined_in[f.0 as int][j],
                        ) && g.parsed[g.defined_in[f.0 as int][j]],
                    forall|p: int|
                        0 <= p < o && g.parsed[p] ==> #[trigger] g.defined_in[f.0 as int].contains(
                            p,
                        ),
                decreases n - o,
            {
                let is_parsed = match parsed.is_parsed(ObjectID(o)) {
                    Some(p) => p,
                    None => false,
                };
                if is_parsed && !holds_object(list, ObjectID(o)) {
                    return false;
                }
                o += 1;
            }
            true
        },
        None => false,
    }
}

/// The functions that are present in all analyzed objects, in the order
/// of their identifiers.
pub fn functions_in_all_objects(parsed: &ParsedData) -> (found: Vec<FunctionID>)
    requires
        parsed.wf(),
    ensures
        forall|i: int|
            0 <= i < found@.len() ==> parsed@.has_function((#[trigger] found@[i]).0 as int)
                && present_in_all(parsed@, found@[i].0 as int),
        forall|f: int|
            parsed@.has_function(f) && present_in_all(parsed@, f) ==> function_ids(
                found@,
            ).contains(f),
        forall|i: int, j: int|
            0 <= i < j < found@.len() ==> (#[trigger] found@[i]).0 < (#[trigger] found@[j]).0,
{
    let ghost g = parsed@;
    let n = parsed.function_count();
    let mut found: Vec<FunctionID> = Vec::new();
    let mut f: usize = 0;
    while f < n
        invariant
            f <= n,
            n == g.functions.len(),
            g == parsed@,
            parsed.wf(),
            forall|i: int|
                0 <= i < found@.len() ==> (#[trigger] found@[i]).0 < f && present_in_all(
                    g,
                    found@[i].0 as int,
                ),
            forall|h: int| 0 <= h < f && present_in_all(g, h) ==> function_ids(found@).contains(h),
            forall|i: int, j: int|
                0 <= i < j < found@.len() ==> (#[trigger] found@[i]).0 < (#[trigger] found@[j]).0,
        decreases n - f,
    {
        let ghost before = found@;
        if is_present_in_all(parsed, FunctionID(f)) {
            found.push(FunctionID(f));
            proof {
                assert(function_ids(found@)[before.len() as int] == f);
            }
        }
        proof {
            assert forall|h: int| 0 <= h < f + 1 && present_in_all(g, h) implies function_ids(
                found@,
            ).contains(h) by {
                if h < f {
                    let k = choose|k: int|
                        0 <= k < function_ids(before).len() && function_ids(before)[k] == h;
                    assert(function_ids(found@)[k] == h);
                }
            }
        }
        f += 1;
    }
    found
}

/// What the knowledge base holds about one function.
#[derive(Debug, Clone, PartialEq, Eq)]
pub struct FunctionInfo {
    /// The function's identifier.
    pub function: FunctionID,
    /// The objects that define the function.
    pub objects: Vec<ObjectID>,
    /// The function's direct callers, one entry per call.
    pub callers: Vec<FunctionID>,
    /// The function's direct callees, one entry per call.
    pub callees: Vec<FunctionID>,
}

/// A copy of a list.
fn copy_of<T: Copy>(list: &Vec<T>) -> (out: Vec<T>)
    ensures
        out@ == list@,
{
    let mut out: Vec<T> = Vec::new();
    let mut i: usize = 0;
    while i < list.len()
        invariant
            i <= list.len(),
            out@ == list@.take(i as int),
        decreases list.len() - i,
    {
        out.push(list[i]);
        proof {
            assert(list@.take(i + 1) =~= list@.take(i as int).push(list@[i as int]));
        }
        i += 1;
    }
    proof {
        assert(list@.take(list@.len() as int) =~= list@);
    }
    out
}

/// Reports the objects that define a function, its direct callers and its
/// direct callees. Fails if the identity has never been interned.
pub fn function_info(parsed: &ParsedData, function: &FunctionName) -> (out: Result<
    FunctionInfo,
    NotFound,
>)
    requires
        parsed.wf(),
    ensures
        match out {
            Ok(info) => {
                let f = info.function.0 as int;
                &&& parsed@.find_function(function@) == Some(f)
                &&& parsed@.has_function(f)
                &&& object_ids(info.objects@) == parsed@.defined_in[f]
                &&& function_ids(info.callers@) == parsed@.callers[f]
                &&& function_ids(info.callees@) == parsed@.callees[f]
            },
            Err(_) => !parsed@.functions.contains(function@),
        },
{
    match parsed.lookup_function(function) {
        Some(f) => {
            match (parsed.objects_of(f), parsed.callers_of(f), parsed.callees_of(f)) {
                (Some(objects), Some(callers), Some(callees)) => Ok(
                    FunctionInfo {
                        function: f,
                        objects: copy_of(objects),
                        callers: copy_of(callers),
                        callees: copy_of(callees),
                    },
                ),
                _ => Err(NotFound),
            }
        },
        None => Err(NotFound),
    }
}

} // verus!
