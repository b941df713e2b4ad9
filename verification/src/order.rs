use vstd::multiset::Multiset;
use vstd::prelude::*;

verus! {

/// Lexicographic order of byte strings: the first differing byte decides, and
/// a proper prefix comes before what it is a prefix of.
pub open spec fn lex_le(a: Seq<u8>, b: Seq<u8>) -> bool
    decreases a.len(),
{
    if a.len() == 0 {
        true
    } else if b.len() == 0 {
        false
    } else if a[0] != b[0] {
        a[0] < b[0]
    } else {
        lex_le(a.drop_first(), b.drop_first())
    }
}

/// Of any two byte strings, one comes before the other.
pub proof fn lemma_lex_total(a: Seq<u8>, b: Seq<u8>)
    ensures
        lex_le(a, b) || lex_le(b, a),
    decreases a.len(),
{
    if a.len() > 0 && b.len() > 0 && a[0] == b[0] {
        lemma_lex_total(a.drop_first(), b.drop_first());
    }
}

/// The order is transitive.
pub proof fn lemma_lex_transitive(a: Seq<u8>, b: Seq<u8>, c: Seq<u8>)
    requires
        lex_le(a, b),
        lex_le(b, c),
    ensures
        lex_le(a, c),
    decreases a.len(),
{
    if a.len() > 0 && b.len() > 0 && c.len() > 0 && a[0] == b[0] && b[0] == c[0] {
        lemma_lex_transitive(a.drop_first(), b.drop_first(), c.drop_first());
    }
}

/// Skipping a common first stretch does not change the order.
proof fn lemma_lex_skip(a: Seq<u8>, b: Seq<u8>, n: int)
    requires
        0 <= n <= a.len(),
        n <= b.len(),
        forall|i: int| 0 <= i < n ==> a[i] == b[i],
    ensures
        lex_le(a, b) == lex_le(a.skip(n), b.skip(n)),
    decreases n,
{
    if n == 0 {
        assert(a.skip(0) =~= a);
        assert(b.skip(0) =~= b);
    } else {
        lemma_lex_skip(a, b, n - 1);
        let x = a.skip(n - 1);
        let y = b.skip(n - 1);
        assert(x.drop_first() =~= a.skip(n));
        assert(y.drop_first() =~= b.skip(n));
    }
}

/// Whether `a` comes before `b`, or equals it, in lexicographic order.
pub fn bytes_le(a: &[u8], b: &[u8]) -> (le: bool)
    ensures
        le == lex_le(a@, b@),
{
    let mut i: usize = 0;
    while i < a.len() && i < b.len() && a[i] == b[i]
        invariant
            i <= a@.len(),
            i <= b@.len(),
            forall|j: int| 0 <= j < i ==> a@[j] == b@[j],
        decreases a@.len() - i,
    {
        i += 1;
    }
    proof {
        lemma_lex_skip(a@, b@, i as int);
    }
    if i == a.len() {
        true
    } else if i == b.len() {
        false
    } else {
        a[i] < b[i]
    }
}

/// The bytes of a path.
pub open spec fn path_bytes(path: String) -> Seq<u8> {
    vstd::utf8::encode_utf8(path@)
}

/// Whether the path `a` comes before the path `b`, or equals it.
pub open spec fn path_le(a: String, b: String) -> bool {
    lex_le(path_bytes(a), path_bytes(b))
}

/// Whether each path of the list comes before those after it.
pub open spec fn sorted(paths: Seq<String>) -> bool {
    forall|i: int, j: int| 0 <= i <= j < paths.len() ==> path_le(paths[i], paths[j])
}

/// Whether the path `a` comes before the path `b`, or equals it.
pub fn comes_before(a: &String, b: &String) -> (le: bool)
    ensures
        le == path_le(*a, *b),
{
    bytes_le(a.as_str().as_bytes(), b.as_str().as_bytes())
}

/// Whether each path of the list comes after those after it.
spec fn descending(paths: Seq<String>) -> bool {
    forall|i: int, j: int| 0 <= i <= j < paths.len() ==> path_le(paths[j], paths[i])
}

/// Whether every path of `lower` comes before every path of `upper`.
spec fn all_le(lower: Seq<String>, upper: Seq<String>) -> bool {
    forall|i: int, j: int|
        0 <= i < lower.len() && 0 <= j < upper.len() ==> path_le(lower[i], upper[j])
}

/// Moving the last path of a sorted list `from`, which no path of `other` comes
/// after, to the end of a descending list above both keeps all of that so.
proof fn lemma_move_last(out: Seq<String>, from: Seq<String>, other: Seq<String>)
    requires
        from.len() > 0,
        sorted(from),
        descending(out),
        all_le(from, out),
        all_le(other, out),
        other.len() > 0 ==> path_le(other.last(), from.last()),
        sorted(other),
    ensures
        sorted(from.drop_last()),
        descending(out.push(from.last())),
        all_le(from.drop_last(), out.push(from.last())),
        all_le(other, out.push(from.last())),
        out.push(from.last()).to_multiset().add(from.drop_last().to_multiset())
            == out.to_multiset().add(from.to_multiset()),
{
    let last = from.last();
    let rest = from.drop_last();
    let grown = out.push(last);
    assert forall|i: int, j: int| 0 <= i < other.len() && 0 <= j < grown.len() implies path_le(
        other[i],
        grown[j],
    ) by {
        if j == out.len() {
            assert(path_le(other[i], other[other.len() - 1]));
            lemma_lex_transitive(path_bytes(other[i]), path_bytes(other.last()), path_bytes(last));
        }
    }
    assert(from =~= rest.push(last));
    vstd::seq_lib::to_multiset_build(rest, last);
    vstd::seq_lib::to_multiset_build(out, last);
}

/// Moves the last path of `from` to the end of `to`.
fn move_last(from: &mut Vec<String>, to: &mut Vec<String>)
    requires
        old(from)@.len() > 0,
    ensures
        final(from)@ == old(from)@.drop_last(),
        final(to)@ == old(to)@.push(old(from)@.last()),
{
    if let Some(path) = from.pop() {
        to.push(path);
    }
}

/// Merges two sorted lists into one that runs from the last path to the first.
fn merge_descending(left: Vec<String>, right: Vec<String>) -> (out: Vec<String>)
    requires
        sorted(left@),
        sorted(right@),
    ensures
        descending(out@),
        out@.to_multiset() == left@.to_multiset().add(right@.to_multiset()),
{
    let ghost whole = left@.to_multiset().add(right@.to_multiset());
    let mut left = left;
    let mut right = right;
    let mut out: Vec<String> = Vec::new();
    assert(out@.to_multiset() =~= Multiset::<String>::empty()) by {
        out@.to_multiset_ensures();
    }
    while left.len() > 0 || right.len() > 0
        invariant
            sorted(left@),
            sorted(right@),
            descending(out@),
            all_le(left@, out@),
            all_le(right@, out@),
            out@.to_multiset().add(left@.to_multiset()).add(right@.to_multiset()) == whole,
        decreases left.len() + right.len(),
    {
        let from_right = if left.len() == 0 {
            true
        } else if right.len() == 0 {
            false
        } else {
            comes_before(&left[left.len() - 1], &right[right.len() - 1])
        };
        if from_right {
            proof {
                broadcast use vstd::multiset::group_multiset_axioms;

                lemma_move_last(out@, right@, left@);
                let grown = out@.push(right@.last()).to_multiset();
                let rest = right@.drop_last().to_multiset();
                assert(grown.add(left@.to_multiset()).add(rest) =~= grown.add(rest).add(
                    left@.to_multiset(),
                ));
            }
            move_last(&mut right, &mut out);
        } else {
            proof {
                broadcast use vstd::multiset::group_multiset_axioms;

                if right.len() > 0 {
                    lemma_lex_total(path_bytes(left@.last()), path_bytes(right@.last()));
                }
                lemma_move_last(out@, left@, right@);
            }
            move_last(&mut left, &mut out);
        }
    }
    proof {
        assert(left@.to_multiset() =~= Multiset::<String>::empty()) by {
            left@.to_multiset_ensures();
        }
        assert(right@.to_multiset() =~= Multiset::<String>::empty()) by {
            right@.to_multiset_ensures();
        }
    }
    out
}

/// The same paths, last to first.
fn reversed(paths: Vec<String>) -> (out: Vec<String>)
    ensures
        out@ == paths@.reverse(),
{
    let ghost given = paths@;
    let mut paths = paths;
    let mut out: Vec<String> = Vec::new();
    while paths.len() > 0
        invariant
            paths@ == given.take(paths@.len() as int),
            out@.len() + paths@.len() == given.len(),
            forall|i: int| 0 <= i < out@.len() ==> out@[i] == given[given.len() - 1 - i],
        decreases paths.len(),
    {
        move_last(&mut paths, &mut out);
    }
    out
}

/// Sorts paths lexicographically by their bytes.
pub fn sort_paths(paths: Vec<String>) -> (out: Vec<String>)
    ensures
        sorted(out@),
        out@.to_multiset() == paths@.to_multiset(),
    decreases paths@.len(),
{
    if paths.len() <= 1 {
        proof {
            if paths.len() == 1 {
                lemma_lex_total(path_bytes(paths@[0]), path_bytes(paths@[0]));
            }
        }
        return paths;
    }
    let ghost given = paths@;
    let mut left = paths;
    let right = left.split_off(left.len() / 2);
    proof {
        assert(given =~= left@ + right@);
        vstd::seq_lib::lemma_multiset_commutative(left@, right@);
    }
    let left = sort_paths(left);
    let right = sort_paths(right);
    let merged = merge_descending(left, right);
    let out = reversed(merged);
    proof {
        merged@.lemma_reverse_to_multiset();
    }
    out
}

} // verus!
