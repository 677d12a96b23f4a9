//! Which files of a test directory are test cases, in what order they run,
//! and what a finished run of the suite amounts to.

use vstd::prelude::*;
use vstd::utf8::encode_utf8;

verus! {

/// Index of the last `.` in `name`, if it has one.
pub open spec fn last_dot(name: Seq<char>) -> Option<int>
    decreases name.len(),
{
    if name.len() == 0 {
        None
    } else if name.last() == '.' {
        Some(name.len() - 1)
    } else {
        last_dot(name.drop_last())
    }
}

/// The extension of the file name `name`, as `Path::extension` gives it:
/// what follows the last `.`, unless there is none or the only one starts
/// the name.
pub open spec fn extension_of(name: Seq<char>) -> Option<Seq<char>> {
    match last_dot(name) {
        Some(p) => if p > 0 {
            Some(name.skip(p + 1))
        } else {
            None
        },
        None => None,
    }
}

/// A file name of a test case: its extension is `sy` or `c`.
pub open spec fn is_test_source(name: Seq<char>) -> bool {
    extension_of(name) == Some("sy"@) || extension_of(name) == Some("c"@)
}

/// The file names among `names` that are test cases, in order.
pub open spec fn test_sources(names: Seq<Seq<char>>) -> Seq<Seq<char>>
    decreases names.len(),
{
    if names.len() == 0 {
        Seq::<Seq<char>>::empty()
    } else if is_test_source(names.last()) {
        test_sources(names.drop_last()).push(names.last())
    } else {
        test_sources(names.drop_last())
    }
}

/// `a` comes no later than `b` in lexicographic order of bytes.
pub open spec fn bytes_le(a: Seq<u8>, b: Seq<u8>) -> bool
    decreases a.len(),
{
    if a.len() == 0 {
        true
    } else if b.len() == 0 {
        false
    } else if a[0] != b[0] {
        a[0] < b[0]
    } else {
        bytes_le(a.drop_first(), b.drop_first())
    }
}

/// The characters of each string in `v`.
pub open spec fn string_views(v: Seq<String>) -> Seq<Seq<char>> {
    v.map_values(|s: String| s@)
}

/// `v` in ascending order of the strings' UTF-8 bytes.
pub open spec fn sorted_by_bytes(v: Seq<Seq<char>>) -> bool {
    forall|i: int, j: int|
        0 <= i < j < v.len() ==> bytes_le(encode_utf8(#[trigger] v[i]), encode_utf8(#[trigger] v[j]))
}

/// Calls `slice::sort` on `v`. std documents it as sorting in ascending
/// order of `Ord`, which for `String` compares the bytes
/// lexicographically, and as keeping the elements (a permutation).
#[verifier::external_body]
fn sort_strings(v: &mut Vec<String>)
    ensures
        string_views(final(v)@).to_multiset() == string_views(old(v)@).to_multiset(),
        sorted_by_bytes(string_views(final(v)@)),
{
    v.sort();
}

/// Whether `name` has the characters `lit`.
fn same_chars(name: &str, lit: &str) -> (r: bool)
    ensures
        r == (name@ == lit@),
{
    let x: String = name.to_owned();
    let y: String = lit.to_owned();
    x == y
}

/// The last `.` of a name lies where a scan from the end stops.
proof fn lemma_last_dot_scan(name: Seq<char>, i: int)
    requires
        0 <= i <= name.len(),
        forall|k: int| i <= k < name.len() ==> name[k] != '.',
        i > 0 ==> name[i - 1] == '.',
    ensures
        last_dot(name) == if i == 0 {
            None::<int>
        } else {
            Some(i - 1)
        },
    decreases name.len(),
{
    if name.len() > i {
        lemma_last_dot_scan(name.drop_last(), i);
    }
}

/// The extension of the file name `name`, if it has one.
fn extension(name: &str) -> (e: Option<&str>)
    ensures
        match e {
            Some(x) => extension_of(name@) == Some(x@),
            None => extension_of(name@) is None,
        },
{
    let n = name.unicode_len();
    let mut i = n;
    while i > 0 && name.get_char(i - 1) != '.'
        invariant
            n == name@.len(),
            i <= n,
            forall|k: int| i <= k < n ==> name@[k] != '.',
        decreases i,
    {
        i = i - 1;
    }
    proof {
        lemma_last_dot_scan(name@, i as int);
    }
    if i > 1 {
        let e = name.substring_char(i, n);
        proof {
            assert(e@ =~= name@.skip(i as int));
        }
        Some(e)
    } else {
        None
    }
}

/// Whether the file name `name` is that of a test case: its extension is
/// `sy` or `c`.
pub fn is_test_source_name(name: &str) -> (r: bool)
    ensures
        r == is_test_source(name@),
{
    match extension(name) {
        Some(e) => same_chars(e, "sy") || same_chars(e, "c"),
        None => false,
    }
}

/// Whether the file name `name` has the extension `c`.
pub fn is_c_file_name(name: &str) -> (r: bool)
    ensures
        r == (extension_of(name@) == Some("c"@)),
{
    match extension(name) {
        Some(e) => same_chars(e, "c"),
        None => false,
    }
}

/// The test cases among the file names of a directory, in the order they
/// run: those with the extension `sy` or `c`, sorted by their bytes.
pub fn select_cases(names: &Vec<String>) -> (r: Vec<String>)
    ensures
        string_views(r@).to_multiset() == test_sources(string_views(names@)).to_multiset(),
        sorted_by_bytes(string_views(r@)),
{
    let ghost all = string_views(names@);
    let mut cases: Vec<String> = Vec::new();
    let mut i: usize = 0;
    while i < names.len()
        invariant
            all == string_views(names@),
            i <= names.len(),
            string_views(cases@) == test_sources(all.take(i as int)),
        decreases names.len() - i,
    {
        proof {
            assert(all.take(i + 1).drop_last() =~= all.take(i as int));
            assert(all.take(i + 1).last() == names@[i as int]@);
        }
        let ghost before = cases@;
        if is_test_source_name(names[i].as_str()) {
            cases.push(names[i].clone());
            proof {
                assert(string_views(cases@) =~= string_views(before).push(names@[i as int]@));
            }
        }
        i += 1;
    }
    proof {
        assert(all.take(names.len() as int) =~= all);
    }
    sort_strings(&mut cases);
    cases
}

/// Number of `true` entries in `v`.
pub open spec fn count_true(v: Seq<bool>) -> nat
    decreases v.len(),
{
    if v.len() == 0 {
        0
    } else {
        count_true(v.drop_last()) + if v.last() {
            1nat
        } else {
            0nat
        }
    }
}

/// What a finished run of the suite amounts to, from whether each test
/// passed: the number of tests, the number that passed, and whether the
/// run succeeded (no test failed).
pub fn summarize(passed: &Vec<bool>) -> (r: (usize, usize, bool))
    ensures
        r.0 == passed.len(),
        r.1 == count_true(passed@),
        r.2 == (count_true(passed@) == passed.len()),
        r.2 == (forall|i: int| 0 <= i < passed.len() ==> passed@[i]),
{
    let mut count: usize = 0;
    let mut i: usize = 0;
    while i < passed.len()
        invariant
            i <= passed.len(),
            count == count_true(passed@.take(i as int)),
            count <= i,
        decreases passed.len() - i,
    {
        proof {
            assert(passed@.take(i + 1).drop_last() =~= passed@.take(i as int));
        }
        if passed[i] {
            count += 1;
        }
        i += 1;
    }
    proof {
        assert(passed@.take(passed.len() as int) =~= passed@);
        law_count_true_all(passed@);
    }
    (passed.len(), count, count == passed.len())
}

/// Law: counting the `true` entries of two runs one after the other adds
/// their counts; one entry counts 1 when it is `true` and 0 when not.
pub proof fn law_count_true_concat(a: Seq<bool>, b: Seq<bool>)
    ensures
        count_true(a + b) == count_true(a) + count_true(b),
        count_true(seq![true]) == 1,
        count_true(seq![false]) == 0,
    decreases b.len(),
{
    reveal_with_fuel(count_true, 2);
    assert(seq![true].drop_last() =~= Seq::<bool>::empty());
    assert(seq![false].drop_last() =~= Seq::<bool>::empty());
    assert(seq![true].last());
    assert(!seq![false].last());
    if b.len() == 0 {
        assert(a + b =~= a);
    } else {
        law_count_true_concat(a, b.drop_last());
        assert((a + b).drop_last() =~= a + b.drop_last());
        assert((a + b).last() == b.last());
    }
}

/// Law: at most every entry is `true`, and all are counted exactly when no
/// entry is `false`: a run with a failing test never counts as all passed.
pub proof fn law_count_true_all(v: Seq<bool>)
    ensures
        count_true(v) <= v.len(),
        (count_true(v) == v.len()) == (forall|i: int| 0 <= i < v.len() ==> v[i]),
    decreases v.len(),
{
    if v.len() > 0 {
        let init = v.drop_last();
        law_count_true_all(init);
        if count_true(v) == v.len() {
            assert forall|i: int| 0 <= i < v.len() implies v[i] by {
                if i < init.len() {
                    assert(init[i] == v[i]);
                }
            }
        }
        if forall|i: int| 0 <= i < v.len() ==> v[i] {
            assert forall|i: int| 0 <= i < init.len() implies init[i] by {
                assert(init[i] == v[i]);
            }
            assert(v[v.len() - 1]);
        }
    }
}

/// Law: a name made of a non-empty stem, a `.` and a suffix without `.`
/// has that suffix as its extension.
pub proof fn law_extension_after_last_dot(stem: Seq<char>, ext: Seq<char>)
    requires
        stem.len() > 0,
        forall|k: int| 0 <= k < ext.len() ==> ext[k] != '.',
    ensures
        extension_of(stem + seq!['.'] + ext) == Some(ext),
{
    let n = stem + seq!['.'] + ext;
    let p = stem.len() as int;
    lemma_last_dot_scan(n, p + 1);
    assert(n.skip(p + 1) =~= ext);
}

/// Law: a name without `.`, or whose only `.` comes first, has no
/// extension.
pub proof fn law_no_extension(name: Seq<char>)
    requires
        forall|k: int| 0 < k < name.len() ==> name[k] != '.',
    ensures
        extension_of(name) is None,
{
    if name.len() > 0 && name[0] == '.' {
        lemma_last_dot_scan(name, 1);
    } else {
        lemma_last_dot_scan(name, 0);
    }
}

/// Law: whether a name is a test case depends on its extension alone, and
/// every name with a non-empty stem and the extension `c` or `sy` is one.
pub proof fn law_test_source_by_extension(n1: Seq<char>, n2: Seq<char>, stem: Seq<char>)
    requires
        stem.len() > 0,
    ensures
        extension_of(n1) == extension_of(n2) ==> is_test_source(n1) == is_test_source(n2),
        is_test_source(stem + seq!['.'] + "c"@),
        is_test_source(stem + seq!['.'] + "sy"@),
{
    reveal_strlit("c");
    reveal_strlit("sy");
    law_extension_after_last_dot(stem, "c"@);
    law_extension_after_last_dot(stem, "sy"@);
}

} // verus!
