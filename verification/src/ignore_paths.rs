//! The directories that hold an ignore file, in the order in which they are
//! searched, and for each the nearest directory above it that holds one too.

use crate::matcher::strings_view;
use crate::places::lemma_place;
use crate::places::lemma_place_is;
use crate::places::place_in;
use vstd::prelude::*;
use vstd::utf8::encode_utf8;

verus! {

/// The place of a byte in the order of paths: the separator `/` comes after
/// every other byte.
pub open spec fn rank(b: u8) -> int {
    if b == 47 {
        256
    } else {
        b as int
    }
}

/// `a` comes before `b`: at the first byte where they differ `a` has the
/// lower rank, or `a` ends first.
pub open spec fn path_less(a: Seq<u8>, b: Seq<u8>) -> bool
    decreases a.len(),
{
    if a.len() == 0 {
        b.len() > 0
    } else if b.len() == 0 {
        false
    } else if a[0] == b[0] {
        path_less(a.drop_first(), b.drop_first())
    } else {
        rank(a[0]) < rank(b[0])
    }
}

/// The bytes of each path.
pub open spec fn bytes_of(paths: Seq<String>) -> Seq<Seq<u8>> {
    Seq::new(paths.len(), |i: int| encode_utf8(paths[i]@))
}

/// No path comes before one that stands earlier in the list.
pub open spec fn sorted(paths: Seq<Seq<u8>>) -> bool {
    forall|i: int, j: int|
        0 <= i < j < paths.len() ==> !path_less(#[trigger] paths[j], #[trigger] paths[i])
}

/// How two paths stand to one another.
#[derive(Clone, Copy, Debug, PartialEq, Eq, Structural)]
pub enum PathOrder {
    Before,
    Same,
    After,
}

pub proof fn lemma_less_irreflexive(a: Seq<u8>)
    ensures
        !path_less(a, a),
    decreases a.len(),
{
    if a.len() > 0 {
        lemma_less_irreflexive(a.drop_first());
    }
}

/// Of two different paths exactly one comes before the other.
pub proof fn lemma_less_total(a: Seq<u8>, b: Seq<u8>)
    ensures
        a != b ==> (path_less(a, b) <==> !path_less(b, a)),
        a == b ==> !path_less(a, b) && !path_less(b, a),
    decreases a.len(),
{
    if a == b {
        lemma_less_irreflexive(a);
    } else if a.len() > 0 && b.len() > 0 {
        if a[0] == b[0] {
            lemma_less_total(a.drop_first(), b.drop_first());
            if a.drop_first() == b.drop_first() {
                assert(a =~= seq![a[0]] + a.drop_first());
                assert(b =~= seq![b[0]] + b.drop_first());
            }
        }
    } else {
        assert(a.len() == 0 && b.len() == 0 ==> a =~= b);
    }
}

pub proof fn lemma_less_transitive(a: Seq<u8>, b: Seq<u8>, c: Seq<u8>)
    requires
        path_less(a, b),
        path_less(b, c),
    ensures
        path_less(a, c),
    decreases a.len(),
{
    if a.len() > 0 && b.len() > 0 && c.len() > 0 {
        if a[0] == b[0] && b[0] == c[0] {
            lemma_less_transitive(a.drop_first(), b.drop_first(), c.drop_first());
        }
    }
}

/// A path that is not before `b`, where `b` is not before `c`, is not before `c`.
pub proof fn lemma_not_less_transitive(a: Seq<u8>, b: Seq<u8>, c: Seq<u8>)
    requires
        !path_less(b, a),
        !path_less(c, b),
    ensures
        !path_less(c, a),
{
    lemma_less_total(a, b);
    lemma_less_total(b, c);
    lemma_less_total(a, c);
    if path_less(c, a) {
        if a == b {
        } else if b == c {
        } else {
            lemma_less_transitive(a, b, c);
        }
    }
}

/// How `a` stands to `b` in the order of paths.
pub fn path_order(a: &str, b: &str) -> (o: PathOrder)
    ensures
        o == PathOrder::Before <==> path_less(encode_utf8(a@), encode_utf8(b@)),
        o == PathOrder::After <==> path_less(encode_utf8(b@), encode_utf8(a@)),
        o == PathOrder::Same <==> a@ == b@,
{
    let x = a.as_bytes();
    let y = b.as_bytes();
    let mut i: usize = 0;
    proof {
        assert(x@.skip(0) =~= x@);
        assert(y@.skip(0) =~= y@);
        vstd::utf8::encode_utf8_decode_utf8(a@);
        vstd::utf8::encode_utf8_decode_utf8(b@);
    }
    while i < x.len() && i < y.len()
        invariant
            i <= x@.len(),
            i <= y@.len(),
            x@ == encode_utf8(a@),
            y@ == encode_utf8(b@),
            a@ == b@ <==> x@ == y@,
            x@.take(i as int) == y@.take(i as int),
            path_less(x@, y@) == path_less(x@.skip(i as int), y@.skip(i as int)),
            path_less(y@, x@) == path_less(y@.skip(i as int), x@.skip(i as int)),
        decreases x@.len() - i,
    {
        let p: u8 = x[i];
        let q: u8 = y[i];
        proof {
            assert(x@.skip(i as int)[0] == p);
            assert(y@.skip(i as int)[0] == q);
            assert(x@.skip(i as int).drop_first() =~= x@.skip(i + 1));
            assert(y@.skip(i as int).drop_first() =~= y@.skip(i + 1));
        }
        if p != q {
            let low: u16 = if p == 47 {
                256
            } else {
                p as u16
            };
            let high: u16 = if q == 47 {
                256
            } else {
                q as u16
            };
            proof {
                assert(x@[i as int] != y@[i as int]);
                assert(x@ != y@);
                assert(x@.skip(i as int).len() > 0 && y@.skip(i as int).len() > 0);
                assert(path_less(x@.skip(i as int), y@.skip(i as int)) == (rank(p) < rank(q)));
                assert(path_less(y@.skip(i as int), x@.skip(i as int)) == (rank(q) < rank(p)));
            }
            if low < high {
                return PathOrder::Before;
            } else {
                return PathOrder::After;
            }
        }
        proof {
            assert(x@.take(i + 1) =~= x@.take(i as int).push(p));
            assert(y@.take(i + 1) =~= y@.take(i as int).push(q));
        }
        i += 1;
    }
    proof {
        if x@.len() == y@.len() {
            assert(x@ =~= x@.take(i as int));
            assert(y@ =~= y@.take(i as int));
        }
        lemma_less_total(x@, y@);
        assert(x@.skip(i as int).len() == x@.len() - i);
        assert(y@.skip(i as int).len() == y@.len() - i);
    }
    if x.len() < y.len() {
        PathOrder::Before
    } else if x.len() > y.len() {
        PathOrder::After
    } else {
        PathOrder::Same
    }
}

/// The place, among the first `n` paths, of the first of `above[from..]`
/// that stands among them.
pub open spec fn first_listed(
    paths: Seq<Seq<char>>,
    n: int,
    above: Seq<Seq<char>>,
    from: int,
) -> Option<int>
    decreases above.len() - from,
{
    if from < 0 || from >= above.len() {
        None
    } else {
        match place_in(paths, n, above[from]) {
            Some(j) => Some(j),
            None => first_listed(paths, n, above, from + 1),
        }
    }
}

/// The number of paths, among the first `n`, that come before `path`.
/// In a sorted list these stand first.
pub open spec fn count_before(paths: Seq<Seq<u8>>, n: int, path: Seq<u8>) -> int
    decreases n,
{
    if n <= 0 || n > paths.len() {
        0
    } else if path_less(paths[n - 1], path) {
        count_before(paths, n - 1, path) + 1
    } else {
        count_before(paths, n - 1, path)
    }
}

/// The number of paths among the first `n` that come before `path`, found
/// by halving.
pub fn lower_bound(paths: &Vec<String>, n: usize, path: &str) -> (at: usize)
    requires
        n <= paths@.len(),
        sorted(bytes_of(paths@).take(n as int)),
    ensures
        at <= n,
        at == count_before(bytes_of(paths@), n as int, encode_utf8(path@)),
        forall|j: int| 0 <= j < at ==> path_less(#[trigger] bytes_of(paths@)[j], encode_utf8(path@)),
        forall|j: int|
            at <= j < n ==> !path_less(#[trigger] bytes_of(paths@)[j], encode_utf8(path@)),
{
    let ghost all = bytes_of(paths@);
    let ghost key = encode_utf8(path@);
    let mut low: usize = 0;
    let mut high: usize = n;
    while low < high
        invariant
            low <= high <= n <= paths@.len(),
            all == bytes_of(paths@),
            key == encode_utf8(path@),
            sorted(all.take(n as int)),
            forall|j: int| 0 <= j < low ==> path_less(#[trigger] all[j], key),
            forall|j: int| high <= j < n ==> !path_less(#[trigger] all[j], key),
        decreases high - low,
    {
        let mid: usize = low + (high - low) / 2;
        let order = path_order(paths[mid].as_str(), path);
        proof {
            assert(all[mid as int] == encode_utf8(paths@[mid as int]@));
        }
        if order == PathOrder::Before {
            proof {
                assert forall|j: int| 0 <= j < mid + 1 implies path_less(#[trigger] all[j], key) by {
                    if j < mid {
                        assert(all.take(n as int)[j] == all[j]);
                        assert(all.take(n as int)[mid as int] == all[mid as int]);
                        lemma_less_total(all[j], all[mid as int]);
                        if all[j] != all[mid as int] {
                            lemma_less_transitive(all[j], all[mid as int], key);
                        }
                    }
                }
            }
            low = mid + 1;
        } else {
            proof {
                assert forall|j: int| mid <= j < n implies !path_less(#[trigger] all[j], key) by {
                    if j > mid {
                        assert(all.take(n as int)[j] == all[j]);
                        assert(all.take(n as int)[mid as int] == all[mid as int]);
                        lemma_not_less_transitive(key, all[mid as int], all[j]);
                    }
                }
            }
            high = mid;
        }
    }
    proof {
        lemma_sorted_prefix_count(all, n as int, key, low as int);
    }
    low
}

proof fn lemma_sorted_prefix_count(paths: Seq<Seq<u8>>, n: int, path: Seq<u8>, at: int)
    requires
        0 <= at <= n <= paths.len(),
        forall|j: int| 0 <= j < at ==> path_less(#[trigger] paths[j], path),
        forall|j: int| at <= j < n ==> !path_less(#[trigger] paths[j], path),
    ensures
        count_before(paths, n, path) == at,
    decreases n,
{
    if n > 0 {
        if at == n {
            lemma_sorted_prefix_count(paths, n - 1, path, at - 1);
        } else {
            lemma_sorted_prefix_count(paths, n - 1, path, at);
        }
    }
}

/// The first place among the first `n` paths where `path` stands.
pub fn find_listed(paths: &Vec<String>, n: usize, path: &str) -> (at: Option<usize>)
    requires
        n <= paths@.len(),
        sorted(bytes_of(paths@).take(n as int)),
    ensures
        at matches Some(j) ==> j < n && paths@[j as int]@ == path@,
        (match at {
            Some(j) => Some(j as int),
            None => None,
        }) == place_in(strings_view(paths@), n as int, path@),
{
    let at = lower_bound(paths, n, path);
    let ghost all = bytes_of(paths@);
    let ghost key = encode_utf8(path@);
    let ghost texts = strings_view(paths@);
    proof {
        assert forall|j: int| 0 <= j < at implies #[trigger] texts[j] != path@ by {
            assert(path_less(all[j], key));
            lemma_less_irreflexive(key);
        }
    }
    if at < n && path_order(paths[at].as_str(), path) == PathOrder::Same {
        proof {
            lemma_place_is(texts, n as int, path@, at as int);
        }
        Some(at)
    } else {
        proof {
            assert forall|j: int| 0 <= j < n implies #[trigger] texts[j] != path@ by {
                if j >= at {
                    assert(all.take(n as int)[j] == all[j]);
                    assert(all.take(n as int)[at as int] == all[at as int]);
                    assert(!path_less(all[at as int], key));
                    lemma_less_total(all[at as int], key);
                    vstd::utf8::encode_utf8_decode_utf8(path@);
                    vstd::utf8::encode_utf8_decode_utf8(paths@[at as int]@);
                    assert(path_less(key, all[at as int]));
                    if j > at {
                        lemma_less_total(all[j], all[at as int]);
                        if all[j] != all[at as int] {
                            lemma_less_transitive(key, all[at as int], all[j]);
                        }
                    }
                    lemma_less_irreflexive(key);
                }
            }
            lemma_place(texts, n as int, path@);
        }
        None
    }
}

/// In a sorted list, what stands behind a path that comes after `key` comes
/// after `key` too.
proof fn lemma_rest_after(all: Seq<Seq<u8>>, key: Seq<u8>, at: int)
    requires
        sorted(all),
        0 <= at < all.len(),
        path_less(key, all[at]),
    ensures
        forall|j: int| at <= j < all.len() ==> path_less(key, #[trigger] all[j]),
{
    assert forall|j: int| at <= j < all.len() implies path_less(key, #[trigger] all[j]) by {
        if j > at {
            lemma_less_total(all[j], all[at]);
            if all[j] != all[at] {
                lemma_less_transitive(key, all[at], all[j]);
            }
        }
    }
}

/// The place where the rules for `path` are kept: the first place of `path`
/// itself where it is listed, else the last place of a path that comes
/// before it. `None` where every path comes after it.
pub fn governing_index(paths: &Vec<String>, path: &str) -> (at: Option<usize>)
    requires
        sorted(bytes_of(paths@)),
    ensures
        at is None <==> forall|j: int|
            0 <= j < paths@.len() ==> path_less(encode_utf8(path@), #[trigger] bytes_of(paths@)[j]),
        at matches Some(i) ==> i < paths@.len() && ({
            ||| paths@[i as int]@ == path@ && forall|j: int|
                0 <= j < i ==> path_less(#[trigger] bytes_of(paths@)[j], encode_utf8(path@))
            ||| path_less(bytes_of(paths@)[i as int], encode_utf8(path@)) && forall|j: int|
                i < j < paths@.len() ==> path_less(
                    encode_utf8(path@),
                    #[trigger] bytes_of(paths@)[j],
                )
        }),
{
    let ghost all = bytes_of(paths@);
    let ghost key = encode_utf8(path@);
    proof {
        assert(all.take(paths@.len() as int) =~= all);
    }
    let n: usize = paths.len();
    let at = lower_bound(paths, n, path);
    if at < n && path_order(paths[at].as_str(), path) == PathOrder::Same {
        proof {
            lemma_less_irreflexive(key);
            assert(all[at as int] == key);
        }
        Some(at)
    } else {
        proof {
            if at < n {
                assert(all[at as int] == encode_utf8(paths@[at as int]@));
                vstd::utf8::encode_utf8_decode_utf8(path@);
                vstd::utf8::encode_utf8_decode_utf8(paths@[at as int]@);
                lemma_less_total(all[at as int], key);
                lemma_rest_after(all, key, at as int);
            }
            if at > 0 {
                lemma_less_total(all[at - 1], key);
            }
        }
        if at == 0 {
            None
        } else {
            Some(at - 1)
        }
    }
}

/// The paths in the order of paths. Equal paths keep their order.
pub fn sort_paths(paths: &Vec<String>) -> (out: Vec<String>)
    ensures
        sorted(bytes_of(out@)),
        strings_view(out@).to_multiset() == strings_view(paths@).to_multiset(),
        out@.len() == paths@.len(),
{
    let mut out: Vec<String> = Vec::new();
    let mut i: usize = 0;
    proof {
        assert(strings_view(out@) =~= strings_view(paths@).take(0));
    }
    while i < paths.len()
        invariant
            i <= paths@.len(),
            out@.len() == i,
            sorted(bytes_of(out@)),
            strings_view(out@).to_multiset() == strings_view(paths@).take(i as int).to_multiset(),
        decreases paths@.len() - i,
    {
        let path = paths[i].clone();
        let ghost key = encode_utf8(path@);
        let ghost before = out@;
        let mut at: usize = out.len();
        while at > 0 && path_order(path.as_str(), out[at - 1].as_str()) == PathOrder::Before
            invariant
                at <= out@.len(),
                key == encode_utf8(path@),
                forall|j: int| at <= j < out@.len() ==> path_less(key, #[trigger] bytes_of(out@)[j]),
            decreases at,
        {
            at -= 1;
        }
        out.insert(at, path);
        proof {
            let old_bytes = bytes_of(before);
            let new_bytes = bytes_of(out@);
            assert(new_bytes =~= old_bytes.insert(at as int, key));
            assert forall|a: int, b: int| 0 <= a < b < new_bytes.len() implies !path_less(
                #[trigger] new_bytes[b],
                #[trigger] new_bytes[a],
            ) by {
                if b == at {
                    assert(new_bytes[a] == old_bytes[a]);
                    if at > 0 {
                        assert(!path_less(key, old_bytes[at - 1]));
                        if a < at - 1 {
                            lemma_not_less_transitive(old_bytes[a], old_bytes[at - 1], key);
                        }
                    }
                } else if a == at {
                    assert(new_bytes[b] == old_bytes[b - 1]);
                    lemma_less_total(key, old_bytes[b - 1]);
                } else if b < at {
                    assert(new_bytes[a] == old_bytes[a] && new_bytes[b] == old_bytes[b]);
                } else if a < at {
                    assert(new_bytes[a] == old_bytes[a] && new_bytes[b] == old_bytes[b - 1]);
                } else {
                    assert(new_bytes[a] == old_bytes[a - 1] && new_bytes[b] == old_bytes[b - 1]);
                }
            }
            let texts = strings_view(before);
            let longer = strings_view(out@);
            let word = paths@[i as int]@;
            assert(longer =~= texts.insert(at as int, word));
            assert(longer.remove(at as int) =~= texts);
            longer.to_multiset_ensures();
            let prefix = strings_view(paths@).take(i as int);
            prefix.to_multiset_ensures();
            assert(strings_view(paths@).take(i + 1) =~= prefix.push(word));
            assert(longer.to_multiset() =~= texts.to_multiset().insert(word));
        }
        i += 1;
    }
    proof {
        assert(strings_view(paths@).take(i as int) =~= strings_view(paths@));
    }
    out
}

/// `Path::ancestors` hands out the path itself, then its parent, then the
/// parent of that, up to the root. Nothing but the first is stated of
/// them: how a path is taken apart differs from one system to another.
#[verifier::external_body]
fn ancestors_of(path: &str) -> (above: Vec<String>)
    ensures
        above@.len() >= 1,
        above@[0]@ == path@,
{
    std::path::Path::new(path).ancestors().map(|p| p.to_string_lossy().into_owned()).collect()
}

/// The place, among the first `n` paths, of the nearest directory above a
/// path that is listed there. `above` holds the path and the directories
/// above it, the nearest first.
pub fn nearest_listed(paths: &Vec<String>, n: usize, above: &Vec<String>) -> (at: Option<usize>)
    requires
        n <= paths@.len(),
        sorted(bytes_of(paths@).take(n as int)),
    ensures
        at matches Some(j) ==> j < n,
        (match at {
            Some(j) => Some(j as int),
            None => None,
        }) == first_listed(strings_view(paths@), n as int, strings_view(above@), 1),
{
    let ghost texts = strings_view(paths@);
    let ghost chain = strings_view(above@);
    let mut k: usize = 1;
    while k < above.len()
        invariant
            1 <= k,
            n <= paths@.len(),
            sorted(bytes_of(paths@).take(n as int)),
            texts == strings_view(paths@),
            chain == strings_view(above@),
            first_listed(texts, n as int, chain, 1) == first_listed(texts, n as int, chain, k as int),
        decreases above@.len() - k,
    {
        let found = find_listed(paths, n, above[k].as_str());
        proof {
            assert(chain[k as int] == above@[k as int]@);
        }
        if found.is_some() {
            return found;
        }
        k += 1;
    }
    None
}

/// The paths in the order of paths, and for each the place of the nearest
/// directory above it that stands earlier in that list, if one does.
pub fn build_gitignore_parent_index_array(paths: Vec<String>) -> (out: (
    Vec<String>,
    Vec<Option<usize>>,
))
    ensures
        sorted(bytes_of(out.0@)),
        strings_view(out.0@).to_multiset() == strings_view(paths@).to_multiset(),
        out.1@.len() == out.0@.len(),
        parents_wf(out.1@),
        out.1@.len() > 0 ==> out.1@[0] is None,
{
    let ordered = sort_paths(&paths);
    let mut parents: Vec<Option<usize>> = Vec::new();
    let mut i: usize = 0;
    while i < ordered.len()
        invariant
            i <= ordered@.len(),
            sorted(bytes_of(ordered@)),
            parents@.len() == i,
            forall|k: int| 0 <= k < i ==> (#[trigger] parents@[k] matches Some(j) ==> j < k),
            i > 0 ==> parents@[0] is None,
        decreases ordered@.len() - i,
    {
        let above = ancestors_of(ordered[i].as_str());
        proof {
            let all = bytes_of(ordered@);
            assert forall|a: int, b: int| 0 <= a < b < i implies !path_less(
                #[trigger] all.take(i as int)[b],
                #[trigger] all.take(i as int)[a],
            ) by {
                assert(all.take(i as int)[a] == all[a]);
                assert(all.take(i as int)[b] == all[b]);
            }
        }
        let parent = nearest_listed(&ordered, i, &above);
        parents.push(parent);
        i += 1;
    }
    (ordered, parents)
}

/// Each directory that has a directory above it in the list has it at an
/// earlier place.
pub open spec fn parents_wf(parents: Seq<Option<usize>>) -> bool {
    forall|i: int| 0 <= i < parents.len() ==> (#[trigger] parents[i] matches Some(j) ==> j < i)
}

/// The directories whose ignore files hold at the directory at place
/// `index`: the outermost first, the directory itself last.
pub open spec fn chain_of(parents: Seq<Option<usize>>, index: int) -> Seq<usize>
    decreases index,
{
    if index < 0 || index >= parents.len() {
        Seq::empty()
    } else {
        match parents[index] {
            Some(j) => if j < index {
                chain_of(parents, j as int).push(index as usize)
            } else {
                seq![index as usize]
            },
            None => seq![index as usize],
        }
    }
}

/// The places of the directories whose ignore files hold at the directory
/// at place `index`, the outermost first.
pub fn ignore_chain(parents: &Vec<Option<usize>>, index: usize) -> (chain: Vec<usize>)
    requires
        index < parents@.len(),
        parents_wf(parents@),
    ensures
        chain@ == chain_of(parents@, index as int),
    decreases index,
{
    match parents[index] {
        Some(j) => {
            let mut chain = ignore_chain(parents, j);
            chain.push(index);
            chain
        },
        None => {
            let mut chain: Vec<usize> = Vec::new();
            chain.push(index);
            chain
        },
    }
}

} // verus!
