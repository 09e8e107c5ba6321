//! The argument scanner: looks a flag up in an argument vector, in both the
//! `--flag=value` and the `--flag value` form, and returns the first value
//! that the caller's predicate accepts.

use vstd::prelude::*;
use vstd::string::StrSliceExecFns;

verus! {

/// Index of the first `'='` in `a`, or `a.len()` when there is none.
pub open spec fn eq_idx(a: Seq<char>) -> int
    decreases a.len(),
{
    if a.len() == 0 {
        0
    } else if a[0] == '=' {
        0
    } else {
        1 + eq_idx(a.drop_first())
    }
}

/// The part of an argument before its first `'='` (the whole argument when
/// there is none).
pub open spec fn key_of(a: Seq<char>) -> Seq<char> {
    a.take(eq_idx(a))
}

/// Whether an argument carries an inline `=value` part.
pub open spec fn has_eq(a: Seq<char>) -> bool {
    eq_idx(a) < a.len()
}

/// The part of an argument after its first `'='`.
pub open spec fn val_of(a: Seq<char>) -> Seq<char> {
    a.skip(eq_idx(a) + 1)
}

pub proof fn lemma_eq_idx_bounds(a: Seq<char>)
    ensures
        0 <= eq_idx(a) <= a.len(),
        eq_idx(a) < a.len() ==> a[eq_idx(a)] == '=',
        forall|j: int| 0 <= j < eq_idx(a) ==> a[j] != '=',
    decreases a.len(),
{
    if a.len() > 0 && a[0] != '=' {
        lemma_eq_idx_bounds(a.drop_first());
        assert(forall|j: int| 1 <= j < eq_idx(a) ==> a[j] == a.drop_first()[j - 1]);
    }
}

/// When the characters before `i` are no `'='` and the one at `i` is (or `i`
/// is the length), the first `'='` stands exactly at `i`.
proof fn lemma_eq_idx_at(a: Seq<char>, i: int)
    requires
        0 <= i <= a.len(),
        forall|j: int| 0 <= j < i ==> a[j] != '=',
        i < a.len() ==> a[i] == '=',
    ensures
        eq_idx(a) == i,
    decreases i,
{
    if i > 0 {
        lemma_eq_idx_at(a.drop_first(), i - 1);
    }
}

/// Character-for-character equality of two string slices.
pub fn str_eq(a: &str, b: &str) -> (r: bool)
    ensures
        r == (a@ == b@),
{
    let a_len = a.unicode_len();
    let b_len = b.unicode_len();
    if a_len != b_len {
        return false;
    }
    let mut i: usize = 0;
    while i < a_len
        invariant
            a_len == a@.len(),
            a_len == b@.len(),
            i <= a_len,
            forall|j: int| 0 <= j < i ==> a@[j] == b@[j],
        decreases a_len - i,
    {
        if a.get_char(i) != b.get_char(i) {
            return false;
        }
        i += 1;
    }
    proof {
        assert(a@ =~= b@);
    }
    true
}

/// Length of the key part of `a`: the index of its first `'='`, or its
/// length when it has none.
pub fn key_len(a: &str) -> (i: usize)
    ensures
        i == eq_idx(a@),
        i <= a@.len(),
{
    let n = a.unicode_len();
    let mut i: usize = 0;
    while i < n
        invariant
            n == a@.len(),
            i <= n,
            forall|j: int| 0 <= j < i ==> a@[j] != '=',
        decreases n - i,
    {
        if a.get_char(i) == '=' {
            proof {
                lemma_eq_idx_at(a@, i as int);
            }
            return i;
        }
        i += 1;
    }
    proof {
        lemma_eq_idx_at(a@, n as int);
    }
    n
}

/// The values that a scan for `flag` would test, in order, starting at
/// index `i`. An argument whose key part is not `flag` is skipped. One in
/// `--flag=value` form contributes the part after `'='`. One in bare
/// `--flag` form contributes the following argument (when there is one),
/// and the scan resumes after that argument.
pub open spec fn cands_from(args: Seq<Seq<char>>, flag: Seq<char>, i: int) -> Seq<Seq<char>>
    decreases args.len() - i,
{
    if i < 0 || i >= args.len() {
        Seq::empty()
    } else if key_of(args[i]) != flag {
        cands_from(args, flag, i + 1)
    } else if has_eq(args[i]) {
        seq![val_of(args[i])] + cands_from(args, flag, i + 1)
    } else if i + 1 >= args.len() {
        Seq::empty()
    } else {
        seq![args[i + 1]] + cands_from(args, flag, i + 2)
    }
}

/// All values that a scan for `flag` over `args` would test, in order.
pub open spec fn scan_candidates(args: Seq<Seq<char>>, flag: Seq<char>) -> Seq<Seq<char>> {
    cands_from(args, flag, 0)
}

/// The first of the candidate values that the predicate accepts.
pub open spec fn first_accepted(cs: Seq<Seq<char>>, p: spec_fn(Seq<char>) -> bool) -> Option<
    Seq<char>,
>
    decreases cs.len(),
{
    if cs.len() == 0 {
        None
    } else if p(cs[0]) {
        Some(cs[0])
    } else {
        first_accepted(cs.drop_first(), p)
    }
}

/// What a lookup of `flag` in `args` returns under the value predicate `p`:
/// the first candidate value that `p` accepts, or nothing.
pub open spec fn spec_arg_value(
    args: Seq<Seq<char>>,
    flag: Seq<char>,
    p: spec_fn(Seq<char>) -> bool,
) -> Option<Seq<char>> {
    first_accepted(scan_candidates(args, flag), p)
}

/// The predicate can return `true` on a string slice with this view.
pub open spec fn accepts<F: Fn(&str) -> bool>(pred: F, c: Seq<char>) -> bool {
    exists|s: &str| s@ == c && call_ensures(pred, (s,), true)
}

/// The predicate can return `false` on a string slice with this view.
pub open spec fn rejects<F: Fn(&str) -> bool>(pred: F, c: Seq<char>) -> bool {
    exists|s: &str| s@ == c && call_ensures(pred, (s,), false)
}

/// If a command-line option matches `find_arg`, apply the predicate `pred`
/// to its value and return the value if `pred` holds. An option is either
/// `--arg=value` or `--arg value`; the first value that `pred` accepts wins.
pub fn arg_value<'a, F: Fn(&str) -> bool>(
    args: &'a Vec<String>,
    find_arg: &str,
    pred: F,
) -> (r: Option<&'a str>)
    requires
        forall|s: &str| #[trigger] call_requires(pred, (s,)),
    ensures
        ({
            let cs = scan_candidates(args.deep_view(), find_arg@);
            match r {
                Some(v) => exists|k: int|
                    {
                        &&& 0 <= k < cs.len()
                        &&& v@ == cs[k]
                        &&& accepts(pred, cs[k])
                        &&& forall|j: int| 0 <= j < k ==> rejects(pred, cs[j])
                    },
                None => forall|j: int| 0 <= j < cs.len() ==> rejects(pred, cs[j]),
            }
        }),
{
    let ghost dv = args.deep_view();
    let ghost cs = scan_candidates(dv, find_arg@);
    let ghost mut tested: int = 0;
    let mut i: usize = 0;
    while i < args.len()
        invariant
            forall|s: &str| #[trigger] call_requires(pred, (s,)),
            dv == args.deep_view(),
            cs == scan_candidates(dv, find_arg@),
            dv.len() == args.len(),
            i <= args.len(),
            0 <= tested <= cs.len(),
            cs.skip(tested) == cands_from(dv, find_arg@, i as int),
            forall|j: int| 0 <= j < tested ==> rejects(pred, cs[j]),
        decreases args.len() - i,
    {
        let a: &str = args[i].as_str();
        proof {
            assert(a@ == dv[i as int]);
        }
        let a_len = a.unicode_len();
        let k_len = key_len(a);
        if !str_eq(a.substring_char(0, k_len), find_arg) {
            proof {
                assert(a@.subrange(0, k_len as int) == key_of(dv[i as int]));
            }
            i += 1;
        } else {
            proof {
                assert(key_of(dv[i as int]) == find_arg@);
            }
            if k_len < a_len {
                let v = a.substring_char(k_len + 1, a_len);
                proof {
                    assert(v@ == val_of(dv[i as int]));
                    assert(cands_from(dv, find_arg@, i as int) == seq![val_of(dv[i as int])]
                        + cands_from(dv, find_arg@, i as int + 1));
                    assert(cs.skip(tested).len() == cs.len() - tested);
                    assert(tested < cs.len());
                    assert(cs.skip(tested)[0] == v@);
                    assert(cs[tested] == v@);
                }
                if pred(v) {
                    proof {
                        assert(cs.skip(tested).len() > 0);
                        assert(accepts(pred, cs[tested]));
                    }
                    return Some(v);
                }
                proof {
                    assert(rejects(pred, cs[tested]));
                    assert(cs.skip(tested + 1) =~= cs.skip(tested).drop_first());
                    tested = tested + 1;
                }
                i += 1;
            } else if i + 1 < args.len() {
                let v: &str = args[i + 1].as_str();
                proof {
                    assert(v@ == dv[i as int + 1]);
                    assert(cands_from(dv, find_arg@, i as int) == seq![dv[i as int + 1]]
                        + cands_from(dv, find_arg@, i as int + 2));
                    assert(cs.skip(tested).len() == cs.len() - tested);
                    assert(tested < cs.len());
                    assert(cs.skip(tested)[0] == v@);
                    assert(cs[tested] == v@);
                }
                if pred(v) {
                    proof {
                        assert(accepts(pred, cs[tested]));
                    }
                    return Some(v);
                }
                proof {
                    assert(rejects(pred, cs[tested]));
                    assert(cs.skip(tested + 1) =~= cs.skip(tested).drop_first());
                    tested = tested + 1;
                }
                i += 2;
            } else {
                proof {
                    assert(cands_from(dv, find_arg@, i as int) =~= Seq::<Seq<char>>::empty());
                }
                i += 1;
            }
        }
    }
    proof {
        assert(cs.skip(tested).len() == 0);
        assert(tested == cs.len());
    }
    None
}

proof fn lemma_first_accepted_none(cs: Seq<Seq<char>>, p: spec_fn(Seq<char>) -> bool)
    requires
        forall|j: int| 0 <= j < cs.len() ==> !p(cs[j]),
    ensures
        first_accepted(cs, p) is None,
    decreases cs.len(),
{
    if cs.len() > 0 {
        lemma_first_accepted_none(cs.drop_first(), p);
    }
}

proof fn lemma_first_accepted_at(cs: Seq<Seq<char>>, p: spec_fn(Seq<char>) -> bool, k: int)
    requires
        0 <= k < cs.len(),
        p(cs[k]),
        forall|j: int| 0 <= j < k ==> !p(cs[j]),
    ensures
        first_accepted(cs, p) == Some(cs[k]),
    decreases k,
{
    if k > 0 {
        lemma_first_accepted_at(cs.drop_first(), p, k - 1);
    }
}

/// While the scan meets no argument whose key part is the flag, it gathers
/// no candidate values.
proof fn lemma_cands_skip_to(args: Seq<Seq<char>>, flag: Seq<char>, lo: int, hi: int)
    requires
        0 <= lo <= hi <= args.len(),
        forall|j: int| lo <= j < hi ==> key_of(args[j]) != flag,
    ensures
        cands_from(args, flag, lo) == cands_from(args, flag, hi),
    decreases hi - lo,
{
    if lo < hi {
        lemma_cands_skip_to(args, flag, lo + 1, hi);
    }
}

/// Law: an empty argument sequence yields no value, whatever the flag and
/// the predicate.
pub proof fn lemma_empty_not_found(flag: Seq<char>, p: spec_fn(Seq<char>) -> bool)
    ensures
        spec_arg_value(Seq::empty(), flag, p) is None,
{
}

/// Law: a predicate that accepts no value makes every lookup return
/// nothing, even when the flag is present.
pub proof fn lemma_rejecting_pred_not_found(
    args: Seq<Seq<char>>,
    flag: Seq<char>,
    p: spec_fn(Seq<char>) -> bool,
)
    requires
        forall|c: Seq<char>| !#[trigger] p(c),
    ensures
        spec_arg_value(args, flag, p) is None,
{
    lemma_first_accepted_none(scan_candidates(args, flag), p);
}

/// Law: when no argument's key part equals the flag, the lookup returns
/// nothing.
pub proof fn lemma_flag_absent_not_found(
    args: Seq<Seq<char>>,
    flag: Seq<char>,
    p: spec_fn(Seq<char>) -> bool,
)
    requires
        forall|i: int| 0 <= i < args.len() ==> key_of(args[i]) != flag,
    ensures
        spec_arg_value(args, flag, p) is None,
{
    lemma_cands_skip_to(args, flag, 0, args.len() as int);
}

/// Law: when the first argument whose key part equals the flag is in
/// `--flag=value` form and the predicate accepts the part after `'='`, the
/// lookup returns exactly that substring.
pub proof fn lemma_eq_form_found(
    args: Seq<Seq<char>>,
    flag: Seq<char>,
    p: spec_fn(Seq<char>) -> bool,
    i: int,
)
    requires
        0 <= i < args.len(),
        forall|j: int| 0 <= j < i ==> key_of(args[j]) != flag,
        key_of(args[i]) == flag,
        has_eq(args[i]),
        p(val_of(args[i])),
    ensures
        spec_arg_value(args, flag, p) == Some(val_of(args[i])),
        val_of(args[i]) == args[i].skip(flag.len() as int + 1),
{
    lemma_cands_skip_to(args, flag, 0, i);
    let cs = scan_candidates(args, flag);
    assert(cs == seq![val_of(args[i])] + cands_from(args, flag, i + 1));
    lemma_first_accepted_at(cs, p, 0);
    lemma_eq_idx_bounds(args[i]);
    assert(flag.len() == eq_idx(args[i]));
}

/// Law: when the first argument whose key part equals the flag is bare and
/// the predicate accepts the following argument, the lookup returns that
/// following argument.
pub proof fn lemma_space_form_found(
    args: Seq<Seq<char>>,
    flag: Seq<char>,
    p: spec_fn(Seq<char>) -> bool,
    i: int,
)
    requires
        0 <= i,
        i + 1 < args.len(),
        forall|j: int| 0 <= j < i ==> key_of(args[j]) != flag,
        key_of(args[i]) == flag,
        !has_eq(args[i]),
        p(args[i + 1]),
    ensures
        spec_arg_value(args, flag, p) == Some(args[i + 1]),
{
    lemma_cands_skip_to(args, flag, 0, i);
    let cs = scan_candidates(args, flag);
    assert(cs == seq![args[i + 1]] + cands_from(args, flag, i + 2));
    lemma_first_accepted_at(cs, p, 0);
}

/// Law: for a predicate that behaves as the spec-level `p` on every string,
/// the contract of `arg_value` pins its result: a result `r` that satisfies
/// that contract is exactly `spec_arg_value`.
pub proof fn lemma_arg_value_exact<F: Fn(&str) -> bool>(
    pred: F,
    p: spec_fn(Seq<char>) -> bool,
    args: Seq<Seq<char>>,
    flag: Seq<char>,
    r: Option<Seq<char>>,
)
    requires
        forall|s: &str, b: bool| #[trigger] call_ensures(pred, (s,), b) ==> b == p(s@),
        ({
            let cs = scan_candidates(args, flag);
            match r {
                Some(v) => exists|k: int|
                    {
                        &&& 0 <= k < cs.len()
                        &&& v == cs[k]
                        &&& accepts(pred, cs[k])
                        &&& forall|j: int| 0 <= j < k ==> rejects(pred, cs[j])
                    },
                None => forall|j: int| 0 <= j < cs.len() ==> rejects(pred, cs[j]),
            }
        }),
    ensures
        r == spec_arg_value(args, flag, p),
{
    let cs = scan_candidates(args, flag);
    assert(forall|c: Seq<char>| rejects(pred, c) ==> !p(c));
    assert(forall|c: Seq<char>| accepts(pred, c) ==> p(c));
    match r {
        Some(v) => {
            let k = choose|k: int|
                {
                    &&& 0 <= k < cs.len()
                    &&& v == cs[k]
                    &&& accepts(pred, cs[k])
                    &&& forall|j: int| 0 <= j < k ==> rejects(pred, cs[j])
                };
            lemma_first_accepted_at(cs, p, k);
        },
        None => {
            lemma_first_accepted_none(cs, p);
        },
    }
}

} // verus!
