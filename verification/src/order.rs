//! The order of paths: that of their bytes in UTF-8, byte by byte, in which a
//! path stands before every longer path that begins with it.
use vstd::prelude::*;
use vstd::string::StringSliceAdditionalSpecFns;
use vstd::utf8::encode_utf8;

verus! {

/// True where `a` stands before `b`: at the first place where the two differ,
/// `a` has the smaller byte, or `a` ends there and `b` does not.
pub open spec fn bytes_before(a: Seq<u8>, b: Seq<u8>) -> bool
    decreases a.len(),
{
    if b.len() == 0 {
        false
    } else if a.len() == 0 {
        true
    } else if a[0] != b[0] {
        a[0] < b[0]
    } else {
        bytes_before(a.drop_first(), b.drop_first())
    }
}

/// True where the path `a` stands before the path `b`.
pub open spec fn path_before(a: Seq<char>, b: Seq<char>) -> bool {
    bytes_before(encode_utf8(a), encode_utf8(b))
}

/// True where each path stands before all that follow it. Such a list holds no
/// path twice.
pub open spec fn strictly_sorted(paths: Seq<Seq<char>>) -> bool {
    forall|i: int, j: int|
        #![trigger paths[i], paths[j]]
        0 <= i < j < paths.len() ==> path_before(paths[i], paths[j])
}

/// How two paths stand to each other.
#[derive(Debug, Clone, Copy, PartialEq, Eq)]
pub enum Rank {
    Before,
    Same,
    After,
}

/// Nothing stands before itself.
pub proof fn lemma_before_irreflexive(a: Seq<u8>)
    ensures
        !bytes_before(a, a),
    decreases a.len(),
{
    if a.len() > 0 {
        lemma_before_irreflexive(a.drop_first());
    }
}

/// Of two byte strings at most one stands before the other.
pub proof fn lemma_before_asymmetric(a: Seq<u8>, b: Seq<u8>)
    requires
        bytes_before(a, b),
    ensures
        !bytes_before(b, a),
    decreases a.len(),
{
    if a.len() > 0 && b.len() > 0 && a[0] == b[0] {
        lemma_before_asymmetric(a.drop_first(), b.drop_first());
    }
}

/// What stands before something that stands before a third stands before the
/// third.
pub proof fn lemma_before_transitive(a: Seq<u8>, b: Seq<u8>, c: Seq<u8>)
    requires
        bytes_before(a, b),
        bytes_before(b, c),
    ensures
        bytes_before(a, c),
    decreases a.len(),
{
    if a.len() > 0 && a[0] == b[0] && b[0] == c[0] {
        lemma_before_transitive(a.drop_first(), b.drop_first(), c.drop_first());
    }
}

/// Two byte strings that agree on their first `k` bytes stand to each other
/// as what follows these bytes.
pub proof fn lemma_before_after_common(a: Seq<u8>, b: Seq<u8>, k: int)
    requires
        0 <= k <= a.len(),
        k <= b.len(),
        forall|j: int| 0 <= j < k ==> a[j] == b[j],
    ensures
        bytes_before(a, b) == bytes_before(a.skip(k), b.skip(k)),
    decreases k,
{
    if k == 0 {
        assert(a.skip(0) == a);
        assert(b.skip(0) == b);
    } else {
        assert(a[0] == b[0]);
        lemma_before_after_common(a.drop_first(), b.drop_first(), k - 1);
        assert(a.drop_first().skip(k - 1) == a.skip(k));
        assert(b.drop_first().skip(k - 1) == b.skip(k));
    }
}

/// A list in which each path stands before all that follow holds no path
/// twice.
pub proof fn lemma_sorted_no_duplicates(paths: Seq<Seq<char>>)
    requires
        strictly_sorted(paths),
    ensures
        paths.no_duplicates(),
{
    assert forall|i: int, j: int|
        0 <= i < paths.len() && 0 <= j < paths.len() && i != j implies paths[i] != paths[j] by {
        lemma_before_irreflexive(encode_utf8(paths[i]));
        if i < j {
            assert(path_before(paths[i], paths[j]));
        } else {
            assert(path_before(paths[j], paths[i]));
        }
    }
}

/// The first path of a sorted list stands before every other member, so a
/// member that does not stand after it is the first.
proof fn lemma_first_is_least(paths: Seq<Seq<char>>, path: Seq<char>)
    requires
        strictly_sorted(paths),
        paths.contains(path),
    ensures
        path == paths[0] || path_before(paths[0], path),
{
    let j = choose|j: int| 0 <= j < paths.len() && paths[j] == path;
    if j > 0 {
        assert(path_before(paths[0], paths[j]));
    }
}

/// There is one sorted list of given members: two lists in which each path
/// stands before all that follow, and which hold the same paths, are the same
/// list.
pub proof fn lemma_sorted_unique(first: Seq<Seq<char>>, second: Seq<Seq<char>>)
    requires
        strictly_sorted(first),
        strictly_sorted(second),
        first.to_set() == second.to_set(),
    ensures
        first == second,
    decreases first.len(),
{
    lemma_sorted_no_duplicates(first);
    lemma_sorted_no_duplicates(second);
    first.unique_seq_to_set();
    second.unique_seq_to_set();
    if first.len() > 0 {
        let a = first[0];
        let b = second[0];
        assert(first.to_set().contains(a) && second.to_set().contains(b));
        assert(second.contains(a) && first.contains(b));
        lemma_first_is_least(first, b);
        lemma_first_is_least(second, a);
        if a != b {
            lemma_before_asymmetric(encode_utf8(a), encode_utf8(b));
        }
        assert(a == b);
        let rest_first = first.drop_first();
        let rest_second = second.drop_first();
        assert forall|i: int, j: int| 0 <= i < j < rest_first.len() implies path_before(
            rest_first[i],
            rest_first[j],
        ) by {
            assert(path_before(first[i + 1], first[j + 1]));
        }
        assert forall|i: int, j: int| 0 <= i < j < rest_second.len() implies path_before(
            rest_second[i],
            rest_second[j],
        ) by {
            assert(path_before(second[i + 1], second[j + 1]));
        }
        assert forall|path: Seq<char>| rest_first.contains(path) <==> rest_second.contains(
            path,
        ) by {
            lemma_rest_members(first, path);
            lemma_rest_members(second, path);
            assert(first.contains(path) == first.to_set().contains(path));
            assert(second.contains(path) == second.to_set().contains(path));
        }
        assert(rest_first.to_set() =~= rest_second.to_set());
        lemma_sorted_unique(rest_first, rest_second);
        assert(first =~= seq![a] + rest_first);
        assert(second =~= seq![b] + rest_second);
    }
}

/// The members of a list after its first are the members but the first,
/// where the list holds no path twice.
proof fn lemma_rest_members(paths: Seq<Seq<char>>, path: Seq<char>)
    requires
        paths.len() > 0,
        paths.no_duplicates(),
    ensures
        paths.drop_first().contains(path) <==> paths.contains(path) && path != paths[0],
{
    let rest = paths.drop_first();
    if rest.contains(path) {
        let j = choose|j: int| 0 <= j < rest.len() && rest[j] == path;
        assert(paths[j + 1] == path);
    }
    if paths.contains(path) && path != paths[0] {
        let j = choose|j: int| 0 <= j < paths.len() && paths[j] == path;
        assert(rest[j - 1] == path);
    }
}

/// Tells how the path `a` stands to the path `b`.
pub fn compare_paths(a: &str, b: &str) -> (rank: Rank)
    ensures
        rank == Rank::Before <==> path_before(a@, b@),
        rank == Rank::Same <==> a@ == b@,
        rank == Rank::After <==> path_before(b@, a@),
{
    let x = a.as_bytes();
    let y = b.as_bytes();
    let n: usize = if x.len() < y.len() { x.len() } else { y.len() };
    let mut i: usize = 0;
    proof {
        lemma_before_irreflexive(x@);
        vstd::utf8::encode_utf8_decode_utf8(a@);
        vstd::utf8::encode_utf8_decode_utf8(b@);
    }
    while i < n
        invariant
            i <= n,
            n <= x@.len(),
            n <= y@.len(),
            forall|j: int| 0 <= j < i ==> x@[j] == y@[j],
            x@ == encode_utf8(a@),
            y@ == encode_utf8(b@),
        decreases n - i,
    {
        if x[i] != y[i] {
            proof {
                lemma_before_after_common(x@, y@, i as int);
                lemma_before_after_common(y@, x@, i as int);
                assert(x@.skip(i as int)[0] == x@[i as int]);
                assert(y@.skip(i as int)[0] == y@[i as int]);
                if x@[i as int] < y@[i as int] {
                    lemma_before_asymmetric(x@, y@);
                } else {
                    lemma_before_asymmetric(y@, x@);
                }
            }
            return if x[i] < y[i] { Rank::Before } else { Rank::After };
        }
        i = i + 1;
    }
    proof {
        lemma_before_after_common(x@, y@, n as int);
        lemma_before_after_common(y@, x@, n as int);
        if x@.len() == y@.len() {
            assert(x@ =~= y@);
        }
    }
    if x.len() < y.len() {
        Rank::Before
    } else if x.len() > y.len() {
        Rank::After
    } else {
        Rank::Same
    }
}

} // verus!
