//! The key-to-bucket table: a mapping from opaque byte-sequence keys to
//! aggregate buckets, kept sorted by key in strict lexicographic byte order
//! so that the final report is deterministic.
//!
//! The table is a pair of parallel vectors ordered by key; `apply` either
//! updates the bucket of an existing key or inserts a fresh seeded bucket at
//! the key's sorted position.

use vstd::prelude::*;
use crate::stats::{
    Bucket, TemperatureStats, bucket_add, bucket_fold, bucket_merge, bucket_seed, bucket_wf,
    lemma_fold_concat,
};
use crate::report::{COMMA, EQUALS, LBRACE, RBRACE, SLASH, SPACE, entries_prefix, push_scaled, spec_report};

verus! {

/// Strict lexicographic order on byte sequences: the usual byte-wise
/// comparison, a proper prefix ordering before every extension.
pub open spec fn lex_lt(a: Seq<u8>, b: Seq<u8>) -> bool
    decreases a.len() + b.len(),
{
    if b.len() == 0 {
        false
    } else if a.len() == 0 {
        true
    } else if a[0] < b[0] {
        true
    } else if a[0] > b[0] {
        false
    } else {
        lex_lt(a.drop_first(), b.drop_first())
    }
}

/// `lex_lt` is a strict total order: exactly one of `a < b`, `a == b`,
/// `b < a` holds.
pub proof fn lemma_lex_total(a: Seq<u8>, b: Seq<u8>)
    ensures
        lex_lt(a, b) || lex_lt(b, a) || a == b,
        lex_lt(a, b) ==> !lex_lt(b, a) && a != b,
        lex_lt(b, a) ==> !lex_lt(a, b) && b != a,
    decreases a.len() + b.len(),
{
    if a.len() == 0 && b.len() == 0 {
        assert(a =~= b);
    } else if a.len() > 0 && b.len() > 0 && a[0] == b[0] {
        lemma_lex_total(a.drop_first(), b.drop_first());
        if a.drop_first() == b.drop_first() {
            assert forall|k: int| 0 <= k < a.len() implies a[k] == b[k] by {
                if k > 0 {
                    assert(a[k] == a.drop_first()[k - 1]);
                    assert(b[k] == b.drop_first()[k - 1]);
                }
            }
            assert(a =~= b);
        }
        if a == b {
            assert(a.drop_first() == b.drop_first());
        }
    }
}

pub proof fn lemma_lex_trans(a: Seq<u8>, b: Seq<u8>, c: Seq<u8>)
    requires
        lex_lt(a, b),
        lex_lt(b, c),
    ensures
        lex_lt(a, c),
    decreases a.len() + b.len() + c.len(),
{
    if a.len() > 0 && b.len() > 0 && c.len() > 0 {
        if a[0] == b[0] && b[0] == c[0] {
            lemma_lex_trans(a.drop_first(), b.drop_first(), c.drop_first());
        }
    }
}

/// When two sequences agree on their first `i` elements, their order is
/// decided at position `i`.
proof fn lemma_lex_from_prefix(a: Seq<u8>, b: Seq<u8>, i: int)
    requires
        0 <= i <= a.len(),
        i <= b.len(),
        a.subrange(0, i) == b.subrange(0, i),
    ensures
        i < a.len() && i < b.len() && a[i] < b[i] ==> lex_lt(a, b),
        i < a.len() && i < b.len() && a[i] > b[i] ==> lex_lt(b, a),
        i == a.len() && i < b.len() ==> lex_lt(a, b),
        i == b.len() && i < a.len() ==> lex_lt(b, a),
        i == a.len() && i == b.len() ==> a == b,
    decreases i,
{
    if i == 0 {
        if i == a.len() && i == b.len() {
            assert(a =~= b);
        }
    } else {
        assert(a.subrange(0, i)[0] == a[0]);
        assert(b.subrange(0, i)[0] == b[0]);
        let a1 = a.drop_first();
        let b1 = b.drop_first();
        assert forall|k: int| 0 <= k < i - 1 implies #[trigger] a1.subrange(0, i - 1)[k]
            == b1.subrange(0, i - 1)[k] by {
            assert(a1[k] == a[k + 1]);
            assert(b1[k] == b[k + 1]);
            assert(a.subrange(0, i)[k + 1] == a[k + 1]);
            assert(b.subrange(0, i)[k + 1] == b[k + 1]);
        }
        assert(a1.subrange(0, i - 1) =~= b1.subrange(0, i - 1));
        lemma_lex_from_prefix(a1, b1, i - 1);
        assert(i < a.len() ==> a1[i - 1] == a[i]);
        assert(i < b.len() ==> b1[i - 1] == b[i]);
        if i == a.len() && i == b.len() && a1 == b1 {
            assert forall|k: int| 0 <= k < a.len() implies a[k] == b[k] by {
                if k > 0 {
                    assert(a[k] == a1[k - 1]);
                    assert(b[k] == b1[k - 1]);
                }
            }
            assert(a =~= b);
        }
    }
}

pub enum KeyOrder {
    Less,
    Equal,
    Greater,
}

/// Three-way lexicographic comparison of two byte strings.
pub fn key_cmp(a: &[u8], b: &[u8]) -> (r: KeyOrder)
    ensures
        r is Less ==> lex_lt(a@, b@),
        r is Equal ==> a@ == b@,
        r is Greater ==> lex_lt(b@, a@),
{
    let an = a.len();
    let bn = b.len();
    let n = if an < bn {
        an
    } else {
        bn
    };
    let mut i: usize = 0;
    while i < n
        invariant
            i <= n,
            n <= a@.len(),
            n <= b@.len(),
            an == a@.len(),
            bn == b@.len(),
            n == if an < bn {
                an
            } else {
                bn
            },
            a@.subrange(0, i as int) == b@.subrange(0, i as int),
        decreases n - i,
    {
        if a[i] < b[i] {
            proof {
                lemma_lex_from_prefix(a@, b@, i as int);
            }
            return KeyOrder::Less;
        }
        if a[i] > b[i] {
            proof {
                lemma_lex_from_prefix(a@, b@, i as int);
            }
            return KeyOrder::Greater;
        }
        proof {
            assert forall|k: int|
                0 <= k < i + 1 implies #[trigger] a@.subrange(0, i as int + 1)[k] == b@.subrange(
                0,
                i as int + 1,
            )[k] by {
                if k < i {
                    assert(a@.subrange(0, i as int)[k] == b@.subrange(0, i as int)[k]);
                }
            }
            assert(a@.subrange(0, i as int + 1) =~= b@.subrange(0, i as int + 1));
        }
        i = i + 1;
    }
    proof {
        lemma_lex_from_prefix(a@, b@, n as int);
    }
    if an == bn {
        KeyOrder::Equal
    } else if an < bn {
        KeyOrder::Less
    } else {
        KeyOrder::Greater
    }
}

/// Look a key up in an association sequence.
pub open spec fn spec_lookup(s: Seq<(Seq<u8>, Bucket)>, k: Seq<u8>) -> Option<Bucket>
    decreases s.len(),
{
    if s.len() == 0 {
        None
    } else if s[0].0 == k {
        Some(s[0].1)
    } else {
        spec_lookup(s.drop_first(), k)
    }
}

/// Insert-or-update: the table after one `(key, value)` record arrives. An
/// existing bucket absorbs the value; a missing key gets a seeded bucket at
/// its sorted position.
pub open spec fn spec_apply(s: Seq<(Seq<u8>, Bucket)>, k: Seq<u8>, v: int) -> Seq<
    (Seq<u8>, Bucket),
>
    decreases s.len(),
{
    if s.len() == 0 {
        seq![(k, bucket_seed(v))]
    } else if s[0].0 == k {
        seq![(k, bucket_add(s[0].1, v))] + s.drop_first()
    } else if lex_lt(k, s[0].0) {
        seq![(k, bucket_seed(v))] + s
    } else {
        seq![s[0]] + spec_apply(s.drop_first(), k, v)
    }
}

/// The table after a whole foreign bucket for key `k` is merged in.
pub open spec fn spec_merge_one(s: Seq<(Seq<u8>, Bucket)>, k: Seq<u8>, b: Bucket) -> Seq<
    (Seq<u8>, Bucket),
>
    decreases s.len(),
{
    if s.len() == 0 {
        seq![(k, b)]
    } else if s[0].0 == k {
        seq![(k, bucket_merge(s[0].1, b))] + s.drop_first()
    } else if lex_lt(k, s[0].0) {
        seq![(k, b)] + s
    } else {
        seq![s[0]] + spec_merge_one(s.drop_first(), k, b)
    }
}

/// The bucket a key gets after one more record, as an optional value.
pub open spec fn opt_apply(x: Option<Bucket>, v: int) -> Option<Bucket> {
    match x {
        Option::None => Option::Some(bucket_seed(v)),
        Option::Some(b) => Option::Some(bucket_add(b, v)),
    }
}

/// The pairwise merge of the optional buckets two tables hold for one key.
pub open spec fn opt_merge(x: Option<Bucket>, y: Option<Bucket>) -> Option<Bucket> {
    match (x, y) {
        (Option::None, Option::None) => Option::None,
        (Option::Some(a), Option::None) => Option::Some(a),
        (Option::None, Option::Some(b)) => Option::Some(b),
        (Option::Some(a), Option::Some(b)) => Option::Some(bucket_merge(a, b)),
    }
}

/// The table reached by folding a sequence of `(key, value)` records into
/// `a`, in order.
pub open spec fn fold_records(
    a: Seq<(Seq<u8>, Bucket)>,
    rs: Seq<(Seq<u8>, int)>,
) -> Seq<(Seq<u8>, Bucket)>
    decreases rs.len(),
{
    if rs.len() == 0 {
        a
    } else {
        fold_records(spec_apply(a, rs[0].0, rs[0].1), rs.drop_first())
    }
}

/// A key below every key of a sorted table is absent from it.
proof fn lemma_lookup_below(s: Seq<(Seq<u8>, Bucket)>, k: Seq<u8>)
    requires
        entries_sorted(s),
        s.len() > 0 ==> lex_lt(k, s[0].0),
    ensures
        spec_lookup(s, k) == Option::<Bucket>::None,
    decreases s.len(),
{
    if s.len() > 0 {
        lemma_lex_total(k, s[0].0);
        let s1 = s.drop_first();
        assert forall|x: int, y: int|
            0 <= x < y < s1.len() implies lex_lt((#[trigger] s1[x]).0, (#[trigger] s1[y]).0) by {
            assert(lex_lt(s[x + 1].0, s[y + 1].0));
        }
        if s1.len() > 0 {
            assert(lex_lt(s[0].0, s[1].0));
            lemma_lex_trans(k, s[0].0, s1[0].0);
        }
        lemma_lookup_below(s1, k);
    }
}

/// Applying a record keeps a table sorted, and introduces no key but its
/// own.
proof fn lemma_apply_sorted(s: Seq<(Seq<u8>, Bucket)>, k0: Seq<u8>, v: int)
    requires
        entries_sorted(s),
    ensures
        entries_sorted(spec_apply(s, k0, v)),
        forall|j: int|
            0 <= j < spec_apply(s, k0, v).len() ==> (#[trigger] spec_apply(s, k0, v)[j]).0 == k0
                || exists|i: int| 0 <= i < s.len() && (#[trigger] s[i]).0 == spec_apply(
                s,
                k0,
                v,
            )[j].0,
    decreases s.len(),
{
    let r = spec_apply(s, k0, v);
    if s.len() == 0 {
        assert(r[0].0 == k0);
    } else if s[0].0 == k0 {
        assert forall|x: int, y: int|
            0 <= x < y < r.len() implies lex_lt((#[trigger] r[x]).0, (#[trigger] r[y]).0) by {
            assert(r[x].0 == s[x].0);
            assert(r[y].0 == s[y].0);
            assert(lex_lt(s[x].0, s[y].0));
        }
        assert forall|j: int| 0 <= j < r.len() implies (#[trigger] r[j]).0 == k0 || exists|i: int|
            0 <= i < s.len() && (#[trigger] s[i]).0 == r[j].0 by {
            assert(s[j].0 == r[j].0);
        }
    } else if lex_lt(k0, s[0].0) {
        assert forall|x: int, y: int|
            0 <= x < y < r.len() implies lex_lt((#[trigger] r[x]).0, (#[trigger] r[y]).0) by {
            if x == 0 {
                if y == 1 {
                    assert(lex_lt(k0, s[0].0));
                } else {
                    assert(lex_lt(s[0].0, s[y - 1].0));
                    lemma_lex_trans(k0, s[0].0, s[y - 1].0);
                }
            } else {
                assert(lex_lt(s[x - 1].0, s[y - 1].0));
            }
        }
        assert forall|j: int| 0 <= j < r.len() implies (#[trigger] r[j]).0 == k0 || exists|i: int|
            0 <= i < s.len() && (#[trigger] s[i]).0 == r[j].0 by {
            if j > 0 {
                assert(s[j - 1].0 == r[j].0);
            }
        }
    } else {
        lemma_lex_total(k0, s[0].0);
        assert(lex_lt(s[0].0, k0));
        let s1 = s.drop_first();
        assert forall|x: int, y: int|
            0 <= x < y < s1.len() implies lex_lt((#[trigger] s1[x]).0, (#[trigger] s1[y]).0) by {
            assert(lex_lt(s[x + 1].0, s[y + 1].0));
        }
        lemma_apply_sorted(s1, k0, v);
        let r1 = spec_apply(s1, k0, v);
        assert(r == seq![s[0]] + r1);
        assert forall|x: int, y: int|
            0 <= x < y < r.len() implies lex_lt((#[trigger] r[x]).0, (#[trigger] r[y]).0) by {
            if x == 0 {
                assert(r[y].0 == r1[y - 1].0);
                if r1[y - 1].0 == k0 {
                    assert(lex_lt(s[0].0, k0));
                } else {
                    let i = choose|i: int| 0 <= i < s1.len() && (#[trigger] s1[i]).0 == r1[y
                        - 1].0;
                    assert(s1[i].0 == s[i + 1].0);
                    assert(lex_lt(s[0].0, s[i + 1].0));
                }
            } else {
                assert(r[x].0 == r1[x - 1].0);
                assert(r[y].0 == r1[y - 1].0);
                assert(lex_lt(r1[x - 1].0, r1[y - 1].0));
            }
        }
        assert forall|j: int| 0 <= j < r.len() implies (#[trigger] r[j]).0 == k0 || exists|i: int|
            0 <= i < s.len() && (#[trigger] s[i]).0 == r[j].0 by {
            if j == 0 {
                assert(s[0].0 == r[0].0);
            } else {
                assert(r[j].0 == r1[j - 1].0);
                if r1[j - 1].0 != k0 {
                    let i = choose|i: int| 0 <= i < s1.len() && (#[trigger] s1[i]).0 == r1[j
                        - 1].0;
                    assert(s[i + 1].0 == r[j].0);
                }
            }
        }
    }
}

/// What applying one record does to every key's bucket: the record's key
/// is seeded or updated, every other key is untouched.
proof fn lemma_lookup_apply(s: Seq<(Seq<u8>, Bucket)>, k0: Seq<u8>, v: int, k: Seq<u8>)
    requires
        entries_sorted(s),
    ensures
        spec_lookup(spec_apply(s, k0, v), k) == (if k == k0 {
            opt_apply(spec_lookup(s, k0), v)
        } else {
            spec_lookup(s, k)
        }),
    decreases s.len(),
{
    let r = spec_apply(s, k0, v);
    if s.len() == 0 {
        assert(r == seq![(k0, bucket_seed(v))]);
        assert(r.drop_first() =~= Seq::<(Seq<u8>, Bucket)>::empty());
        assert(spec_lookup(Seq::<(Seq<u8>, Bucket)>::empty(), k) == Option::<Bucket>::None);
    } else if s[0].0 == k0 {
        assert(r == seq![(k0, bucket_add(s[0].1, v))] + s.drop_first());
        assert(r[0] == (k0, bucket_add(s[0].1, v)));
        assert(r.drop_first() =~= s.drop_first());
    } else if lex_lt(k0, s[0].0) {
        assert(r == seq![(k0, bucket_seed(v))] + s);
        assert(r[0] == (k0, bucket_seed(v)));
        assert(r.drop_first() =~= s);
        if k == k0 {
            lemma_lookup_below(s, k0);
        }
    } else {
        lemma_lex_total(k0, s[0].0);
        let s1 = s.drop_first();
        assert forall|x: int, y: int|
            0 <= x < y < s1.len() implies lex_lt((#[trigger] s1[x]).0, (#[trigger] s1[y]).0) by {
            assert(lex_lt(s[x + 1].0, s[y + 1].0));
        }
        lemma_lookup_apply(s1, k0, v, k);
        assert(r == seq![s[0]] + spec_apply(s1, k0, v));
        assert(r[0] == s[0]);
        assert(r.drop_first() =~= spec_apply(s1, k0, v));
    }
}

proof fn lemma_fold_records_concat(
    a: Seq<(Seq<u8>, Bucket)>,
    rs1: Seq<(Seq<u8>, int)>,
    rs2: Seq<(Seq<u8>, int)>,
)
    ensures
        fold_records(a, rs1 + rs2) == fold_records(fold_records(a, rs1), rs2),
    decreases rs1.len(),
{
    if rs1.len() == 0 {
        assert(rs1 + rs2 =~= rs2);
    } else {
        assert((rs1 + rs2)[0] == rs1[0]);
        assert((rs1 + rs2).drop_first() =~= rs1.drop_first() + rs2);
        lemma_fold_records_concat(spec_apply(a, rs1[0].0, rs1[0].1), rs1.drop_first(), rs2);
    }
}

pub proof fn lemma_fold_sorted(a: Seq<(Seq<u8>, Bucket)>, rs: Seq<(Seq<u8>, int)>)
    requires
        entries_sorted(a),
    ensures
        entries_sorted(fold_records(a, rs)),
    decreases rs.len(),
{
    if rs.len() > 0 {
        lemma_apply_sorted(a, rs[0].0, rs[0].1);
        lemma_fold_sorted(spec_apply(a, rs[0].0, rs[0].1), rs.drop_first());
    }
}

/// Folding records into a table touches each key independently: the result
/// at `k` is the merge of what the table already held and what the records
/// alone would build.
pub proof fn lemma_fold_lookup_merge(a: Seq<(Seq<u8>, Bucket)>, rs: Seq<(Seq<u8>, int)>, k: Seq<u8>)
    requires
        entries_sorted(a),
    ensures
        spec_lookup(fold_records(a, rs), k) == opt_merge(
            spec_lookup(a, k),
            spec_lookup(fold_records(Seq::<(Seq<u8>, Bucket)>::empty(), rs), k),
        ),
    decreases rs.len(),
{
    let e = Seq::<(Seq<u8>, Bucket)>::empty();
    if rs.len() == 0 {
        assert(spec_lookup(e, k) == Option::<Bucket>::None);
    } else {
        let k0 = rs[0].0;
        let v = rs[0].1;
        let rest = rs.drop_first();
        lemma_apply_sorted(a, k0, v);
        lemma_apply_sorted(e, k0, v);
        lemma_fold_lookup_merge(spec_apply(a, k0, v), rest, k);
        lemma_fold_lookup_merge(spec_apply(e, k0, v), rest, k);
        lemma_lookup_apply(a, k0, v, k);
        lemma_lookup_apply(e, k0, v, k);
        assert(spec_lookup(e, k0) == Option::<Bucket>::None);
        assert(spec_lookup(e, k) == Option::<Bucket>::None);
        let xx = spec_lookup(fold_records(e, rest), k);
        if k == k0 {
            let x = spec_lookup(a, k);
            assert(opt_merge(opt_apply(x, v), xx) == opt_merge(
                x,
                opt_merge(Option::Some(bucket_seed(v)), xx),
            ));
        }
    }
}

/// Law: merge associativity across partitions. Splitting a record stream
/// anywhere, aggregating the two parts separately and merging the resulting
/// buckets key by key gives, for every key, exactly the bucket of the
/// single-pass aggregation.
pub proof fn lemma_merge_partitions(rs1: Seq<(Seq<u8>, int)>, rs2: Seq<(Seq<u8>, int)>, k: Seq<u8>)
    ensures
        spec_lookup(fold_records(Seq::<(Seq<u8>, Bucket)>::empty(), rs1 + rs2), k) == opt_merge(
            spec_lookup(fold_records(Seq::<(Seq<u8>, Bucket)>::empty(), rs1), k),
            spec_lookup(fold_records(Seq::<(Seq<u8>, Bucket)>::empty(), rs2), k),
        ),
{
    let e = Seq::<(Seq<u8>, Bucket)>::empty();
    lemma_fold_records_concat(e, rs1, rs2);
    lemma_fold_sorted(e, rs1);
    lemma_fold_lookup_merge(fold_records(e, rs1), rs2, k);
}

/// The values a record sequence carries for one key, in arrival order.
pub open spec fn values_of(rs: Seq<(Seq<u8>, int)>, k: Seq<u8>) -> Seq<int>
    decreases rs.len(),
{
    if rs.len() == 0 {
        Seq::empty()
    } else if rs[0].0 == k {
        seq![rs[0].1] + values_of(rs.drop_first(), k)
    } else {
        values_of(rs.drop_first(), k)
    }
}

/// Law: after aggregation every key holds exactly the fold of its own
/// values — the bucket's total is their sum, its count their number, its
/// max and min their extremes — and a key with no record has no bucket.
pub proof fn lemma_bucket_is_fold(rs: Seq<(Seq<u8>, int)>, k: Seq<u8>)
    ensures
        values_of(rs, k).len() == 0 ==> spec_lookup(
            fold_records(Seq::<(Seq<u8>, Bucket)>::empty(), rs),
            k,
        ) == Option::<Bucket>::None,
        values_of(rs, k).len() > 0 ==> spec_lookup(
            fold_records(Seq::<(Seq<u8>, Bucket)>::empty(), rs),
            k,
        ) == Option::Some(bucket_fold(values_of(rs, k))),
    decreases rs.len(),
{
    let e = Seq::<(Seq<u8>, Bucket)>::empty();
    if rs.len() > 0 {
        let r0 = rs[0];
        let rest = rs.drop_first();
        lemma_bucket_is_fold(rest, k);
        lemma_apply_sorted(e, r0.0, r0.1);
        lemma_fold_lookup_merge(spec_apply(e, r0.0, r0.1), rest, k);
        lemma_lookup_apply(e, r0.0, r0.1, k);
        assert(spec_lookup(e, k) == Option::<Bucket>::None);
        assert(spec_lookup(e, r0.0) == Option::<Bucket>::None);
        if k == r0.0 {
            let vs = values_of(rest, k);
            assert(values_of(rs, k) == seq![r0.1] + vs);
            assert(seq![r0.1][0] == r0.1);
            if vs.len() == 0 {
                assert(values_of(rs, k) =~= seq![r0.1]);
                assert(bucket_fold(seq![r0.1]) == bucket_seed(r0.1));
            } else {
                lemma_fold_concat(seq![r0.1], vs);
                assert(bucket_fold(seq![r0.1]) == bucket_seed(r0.1));
            }
        } else {
            assert(values_of(rs, k) == values_of(rest, k));
        }
    }
}

/// Merging one bucket keeps a table sorted, and introduces no key but its
/// own.
proof fn lemma_merge_one_sorted(s: Seq<(Seq<u8>, Bucket)>, k0: Seq<u8>, b: Bucket)
    requires
        entries_sorted(s),
    ensures
        entries_sorted(spec_merge_one(s, k0, b)),
    decreases s.len(),
{
    let r = spec_merge_one(s, k0, b);
    if s.len() == 0 {
    } else if s[0].0 == k0 {
        assert forall|x: int, y: int|
            0 <= x < y < r.len() implies lex_lt((#[trigger] r[x]).0, (#[trigger] r[y]).0) by {
            assert(r[x].0 == s[x].0);
            assert(r[y].0 == s[y].0);
            assert(lex_lt(s[x].0, s[y].0));
        }
    } else if lex_lt(k0, s[0].0) {
        assert forall|x: int, y: int|
            0 <= x < y < r.len() implies lex_lt((#[trigger] r[x]).0, (#[trigger] r[y]).0) by {
            if x == 0 {
                if y == 1 {
                    assert(lex_lt(k0, s[0].0));
                } else {
                    assert(lex_lt(s[0].0, s[y - 1].0));
                    lemma_lex_trans(k0, s[0].0, s[y - 1].0);
                }
            } else {
                assert(lex_lt(s[x - 1].0, s[y - 1].0));
            }
        }
    } else {
        lemma_lex_total(k0, s[0].0);
        assert(lex_lt(s[0].0, k0));
        let s1 = s.drop_first();
        assert forall|x: int, y: int|
            0 <= x < y < s1.len() implies lex_lt((#[trigger] s1[x]).0, (#[trigger] s1[y]).0) by {
            assert(lex_lt(s[x + 1].0, s[y + 1].0));
        }
        lemma_merge_one_sorted(s1, k0, b);
        lemma_merge_one_keys(s1, k0, b);
        let r1 = spec_merge_one(s1, k0, b);
        assert(r == seq![s[0]] + r1);
        assert forall|x: int, y: int|
            0 <= x < y < r.len() implies lex_lt((#[trigger] r[x]).0, (#[trigger] r[y]).0) by {
            if x == 0 {
                assert(r[y].0 == r1[y - 1].0);
                if r1[y - 1].0 == k0 {
                    assert(lex_lt(s[0].0, k0));
                } else {
                    let i = choose|i: int| 0 <= i < s1.len() && (#[trigger] s1[i]).0 == r1[y
                        - 1].0;
                    assert(s1[i].0 == s[i + 1].0);
                    assert(lex_lt(s[0].0, s[i + 1].0));
                }
            } else {
                assert(r[x].0 == r1[x - 1].0);
                assert(r[y].0 == r1[y - 1].0);
                assert(lex_lt(r1[x - 1].0, r1[y - 1].0));
            }
        }
    }
}

proof fn lemma_merge_one_keys(s: Seq<(Seq<u8>, Bucket)>, k0: Seq<u8>, b: Bucket)
    ensures
        forall|j: int|
            0 <= j < spec_merge_one(s, k0, b).len() ==> (#[trigger] spec_merge_one(s, k0, b)[j]).0
                == k0 || exists|i: int|
                0 <= i < s.len() && (#[trigger] s[i]).0 == spec_merge_one(s, k0, b)[j].0,
    decreases s.len(),
{
    let r = spec_merge_one(s, k0, b);
    if s.len() == 0 {
        assert(r[0].0 == k0);
    } else if s[0].0 == k0 {
        assert forall|j: int| 0 <= j < r.len() implies (#[trigger] r[j]).0 == k0 || exists|i: int|
            0 <= i < s.len() && (#[trigger] s[i]).0 == r[j].0 by {
            assert(s[j].0 == r[j].0);
        }
    } else if lex_lt(k0, s[0].0) {
        assert forall|j: int| 0 <= j < r.len() implies (#[trigger] r[j]).0 == k0 || exists|i: int|
            0 <= i < s.len() && (#[trigger] s[i]).0 == r[j].0 by {
            if j > 0 {
                assert(s[j - 1].0 == r[j].0);
            }
        }
    } else {
        let s1 = s.drop_first();
        lemma_merge_one_keys(s1, k0, b);
        let r1 = spec_merge_one(s1, k0, b);
        assert(r == seq![s[0]] + r1);
        assert forall|j: int| 0 <= j < r.len() implies (#[trigger] r[j]).0 == k0 || exists|i: int|
            0 <= i < s.len() && (#[trigger] s[i]).0 == r[j].0 by {
            if j == 0 {
                assert(s[0].0 == r[0].0);
            } else {
                assert(r[j].0 == r1[j - 1].0);
                if r1[j - 1].0 != k0 {
                    let i = choose|i: int| 0 <= i < s1.len() && (#[trigger] s1[i]).0 == r1[j
                        - 1].0;
                    assert(s[i + 1].0 == r[j].0);
                }
            }
        }
    }
}

/// What merging one foreign bucket does to every key.
proof fn lemma_lookup_merge_one(s: Seq<(Seq<u8>, Bucket)>, k0: Seq<u8>, b: Bucket, k: Seq<u8>)
    requires
        entries_sorted(s),
    ensures
        spec_lookup(spec_merge_one(s, k0, b), k) == (if k == k0 {
            opt_merge(spec_lookup(s, k0), Option::Some(b))
        } else {
            spec_lookup(s, k)
        }),
    decreases s.len(),
{
    let r = spec_merge_one(s, k0, b);
    if s.len() == 0 {
        assert(r == seq![(k0, b)]);
        assert(r.drop_first() =~= Seq::<(Seq<u8>, Bucket)>::empty());
        assert(spec_lookup(Seq::<(Seq<u8>, Bucket)>::empty(), k) == Option::<Bucket>::None);
    } else if s[0].0 == k0 {
        assert(r == seq![(k0, bucket_merge(s[0].1, b))] + s.drop_first());
        assert(r[0] == (k0, bucket_merge(s[0].1, b)));
        assert(r.drop_first() =~= s.drop_first());
    } else if lex_lt(k0, s[0].0) {
        assert(r == seq![(k0, b)] + s);
        assert(r[0] == (k0, b));
        assert(r.drop_first() =~= s);
        if k == k0 {
            lemma_lookup_below(s, k0);
        }
    } else {
        lemma_lex_total(k0, s[0].0);
        let s1 = s.drop_first();
        assert forall|x: int, y: int|
            0 <= x < y < s1.len() implies lex_lt((#[trigger] s1[x]).0, (#[trigger] s1[y]).0) by {
            assert(lex_lt(s[x + 1].0, s[y + 1].0));
        }
        lemma_lookup_merge_one(s1, k0, b, k);
        assert(r == seq![s[0]] + spec_merge_one(s1, k0, b));
        assert(r[0] == s[0]);
        assert(r.drop_first() =~= spec_merge_one(s1, k0, b));
    }
}

/// Looking a key up after one more entry is appended.
proof fn lemma_lookup_snoc(s: Seq<(Seq<u8>, Bucket)>, e: (Seq<u8>, Bucket), k: Seq<u8>)
    ensures
        spec_lookup(s.push(e), k) == (match spec_lookup(s, k) {
            Option::Some(b) => Option::Some(b),
            Option::None => if e.0 == k {
                Option::Some(e.1)
            } else {
                Option::None
            },
        }),
    decreases s.len(),
{
    if s.len() == 0 {
        assert(s.push(e)[0] == e);
        assert(s.push(e).drop_first() =~= Seq::<(Seq<u8>, Bucket)>::empty());
        assert(spec_lookup(Seq::<(Seq<u8>, Bucket)>::empty(), k) == Option::<Bucket>::None);
    } else {
        assert(s.push(e)[0] == s[0]);
        assert(s.push(e).drop_first() =~= s.drop_first().push(e));
        lemma_lookup_snoc(s.drop_first(), e, k);
    }
}

/// A key above every key of a table is absent from it.
proof fn lemma_lookup_above(s: Seq<(Seq<u8>, Bucket)>, k: Seq<u8>)
    requires
        forall|j: int| 0 <= j < s.len() ==> lex_lt((#[trigger] s[j]).0, k),
    ensures
        spec_lookup(s, k) == Option::<Bucket>::None,
    decreases s.len(),
{
    if s.len() > 0 {
        lemma_lex_total(s[0].0, k);
        let s1 = s.drop_first();
        assert forall|j: int| 0 <= j < s1.len() implies lex_lt((#[trigger] s1[j]).0, k) by {
            assert(lex_lt(s[j + 1].0, k));
        }
        lemma_lookup_above(s1, k);
    }
}

proof fn lemma_merge_fold_lookup(
    s: Seq<(Seq<u8>, Bucket)>,
    o: Seq<(Seq<u8>, Bucket)>,
    n: int,
    k: Seq<u8>,
)
    requires
        entries_sorted(s),
        entries_sorted(o),
        0 <= n <= o.len(),
    ensures
        entries_sorted(spec_merge_fold(s, o, n)),
        spec_lookup(spec_merge_fold(s, o, n), k) == opt_merge(
            spec_lookup(s, k),
            spec_lookup(o.take(n), k),
        ),
    decreases n,
{
    if n == 0 {
        assert(o.take(0) =~= Seq::<(Seq<u8>, Bucket)>::empty());
        assert(spec_lookup(Seq::<(Seq<u8>, Bucket)>::empty(), k) == Option::<Bucket>::None);
    } else {
        let f = spec_merge_fold(s, o, n - 1);
        let e = o[n - 1];
        lemma_merge_fold_lookup(s, o, n - 1, k);
        lemma_merge_fold_lookup(s, o, n - 1, e.0);
        lemma_merge_one_sorted(f, e.0, e.1);
        lemma_lookup_merge_one(f, e.0, e.1, k);
        assert(o.take(n) =~= o.take(n - 1).push(e));
        lemma_lookup_snoc(o.take(n - 1), e, k);
        if k == e.0 {
            assert forall|j: int|
                0 <= j < o.take(n - 1).len() implies lex_lt((#[trigger] o.take(n - 1)[j]).0, e.0) by {
                assert(o.take(n - 1)[j] == o[j]);
                assert(lex_lt(o[j].0, o[n - 1].0));
            }
            lemma_lookup_above(o.take(n - 1), e.0);
        }
    }
}

/// Law: merging a whole table in, as `merge_from` does, leaves every key
/// with exactly the pairwise merge of the buckets the two tables held for
/// it.
pub proof fn lemma_merge_tables(s: Seq<(Seq<u8>, Bucket)>, o: Seq<(Seq<u8>, Bucket)>, k: Seq<u8>)
    requires
        entries_sorted(s),
        entries_sorted(o),
    ensures
        spec_lookup(spec_merge_fold(s, o, o.len() as int), k) == opt_merge(
            spec_lookup(s, k),
            spec_lookup(o, k),
        ),
{
    lemma_merge_fold_lookup(s, o, o.len() as int, k);
    assert(o.take(o.len() as int) =~= o);
}

/// The number of records absorbed by a table: the sum of its bucket counts.
pub open spec fn sum_counts(s: Seq<(Seq<u8>, Bucket)>) -> int
    decreases s.len(),
{
    if s.len() == 0 {
        0
    } else {
        sum_counts(s.drop_last()) + s.last().1.count
    }
}

proof fn lemma_sum_counts_nonneg(s: Seq<(Seq<u8>, Bucket)>)
    ensures
        sum_counts(s) >= 0,
    decreases s.len(),
{
    if s.len() > 0 {
        lemma_sum_counts_nonneg(s.drop_last());
    }
}

proof fn lemma_sum_counts_concat(s1: Seq<(Seq<u8>, Bucket)>, s2: Seq<(Seq<u8>, Bucket)>)
    ensures
        sum_counts(s1 + s2) == sum_counts(s1) + sum_counts(s2),
    decreases s2.len(),
{
    if s2.len() == 0 {
        assert(s1 + s2 =~= s1);
    } else {
        lemma_sum_counts_concat(s1, s2.drop_last());
        assert((s1 + s2).drop_last() =~= s1 + s2.drop_last());
        assert((s1 + s2).last() == s2.last());
    }
}

proof fn lemma_sum_counts_split(s: Seq<(Seq<u8>, Bucket)>, i: int)
    requires
        0 <= i < s.len(),
    ensures
        sum_counts(s) == sum_counts(s.take(i)) + s[i].1.count + sum_counts(s.skip(i + 1)),
{
    assert(s =~= (s.take(i) + seq![s[i]]) + s.skip(i + 1));
    lemma_sum_counts_concat(s.take(i) + seq![s[i]], s.skip(i + 1));
    lemma_sum_counts_concat(s.take(i), seq![s[i]]);
    assert(seq![s[i]].drop_last() =~= Seq::<(Seq<u8>, Bucket)>::empty());
    assert(sum_counts(Seq::<(Seq<u8>, Bucket)>::empty()) == 0);
    assert(seq![s[i]].last() == s[i]);
    assert(sum_counts(seq![s[i]]) == s[i].1.count);
}

proof fn lemma_sum_counts_elem(s: Seq<(Seq<u8>, Bucket)>, i: int)
    requires
        0 <= i < s.len(),
    ensures
        s[i].1.count <= sum_counts(s),
{
    lemma_sum_counts_split(s, i);
    lemma_sum_counts_nonneg(s.take(i));
    lemma_sum_counts_nonneg(s.skip(i + 1));
}

pub open spec fn entries_sorted(s: Seq<(Seq<u8>, Bucket)>) -> bool {
    forall|i: int, j: int| 0 <= i < j < s.len() ==> lex_lt(#[trigger] s[i].0, #[trigger] s[j].0)
}

pub open spec fn entries_wf(s: Seq<(Seq<u8>, Bucket)>) -> bool {
    &&& entries_sorted(s)
    &&& forall|i: int| 0 <= i < s.len() ==> bucket_wf(#[trigger] s[i].1)
}

/// With all keys before position `i` below `k` and the key at `i` equal to
/// `k`, applying a record is a point update at `i`.
proof fn lemma_spec_apply_update(s: Seq<(Seq<u8>, Bucket)>, k: Seq<u8>, v: int, i: int)
    requires
        0 <= i < s.len(),
        forall|j: int| 0 <= j < i ==> lex_lt(#[trigger] s[j].0, k),
        s[i].0 == k,
    ensures
        spec_apply(s, k, v) == s.update(i, (k, bucket_add(s[i].1, v))),
    decreases i,
{
    if i == 0 {
        assert(seq![(k, bucket_add(s[0].1, v))] + s.drop_first() =~= s.update(
            0,
            (k, bucket_add(s[0].1, v)),
        ));
    } else {
        assert(lex_lt(s[0].0, k));
        lemma_lex_total(s[0].0, k);
        let s1 = s.drop_first();
        assert forall|j: int| 0 <= j < i - 1 implies lex_lt(#[trigger] s1[j].0, k) by {
            assert(s1[j] == s[j + 1]);
        }
        assert(s1[i - 1] == s[i]);
        lemma_spec_apply_update(s1, k, v, i - 1);
        assert(spec_apply(s, k, v) == seq![s[0]] + spec_apply(s1, k, v));
        assert(seq![s[0]] + s1.update(i - 1, (k, bucket_add(s1[i - 1].1, v))) =~= s.update(
            i,
            (k, bucket_add(s[i].1, v)),
        ));
    }
}

/// With all keys before position `i` below `k` and `k` below the key at `i`
/// (if any), applying a record inserts the seeded bucket at `i`.
proof fn lemma_spec_apply_insert(s: Seq<(Seq<u8>, Bucket)>, k: Seq<u8>, v: int, i: int)
    requires
        0 <= i <= s.len(),
        forall|j: int| 0 <= j < i ==> lex_lt(#[trigger] s[j].0, k),
        i < s.len() ==> lex_lt(k, s[i].0),
    ensures
        spec_apply(s, k, v) == s.insert(i, (k, bucket_seed(v))),
    decreases i,
{
    if s.len() == 0 {
        assert(spec_apply(s, k, v) =~= s.insert(0, (k, bucket_seed(v))));
    } else if i == 0 {
        lemma_lex_total(k, s[0].0);
        assert(seq![(k, bucket_seed(v))] + s =~= s.insert(0, (k, bucket_seed(v))));
    } else {
        assert(lex_lt(s[0].0, k));
        lemma_lex_total(s[0].0, k);
        let s1 = s.drop_first();
        assert forall|j: int| 0 <= j < i - 1 implies lex_lt(#[trigger] s1[j].0, k) by {
            assert(s1[j] == s[j + 1]);
        }
        assert(i - 1 < s1.len() ==> s1[i - 1] == s[i]);
        lemma_spec_apply_insert(s1, k, v, i - 1);
        assert(spec_apply(s, k, v) == seq![s[0]] + spec_apply(s1, k, v));
        assert(seq![s[0]] + s1.insert(i - 1, (k, bucket_seed(v))) =~= s.insert(
            i,
            (k, bucket_seed(v)),
        ));
    }
}

/// Same as `lemma_spec_apply_update`, for merging a whole bucket.
proof fn lemma_spec_merge_one_update(s: Seq<(Seq<u8>, Bucket)>, k: Seq<u8>, b: Bucket, i: int)
    requires
        0 <= i < s.len(),
        forall|j: int| 0 <= j < i ==> lex_lt(#[trigger] s[j].0, k),
        s[i].0 == k,
    ensures
        spec_merge_one(s, k, b) == s.update(i, (k, bucket_merge(s[i].1, b))),
    decreases i,
{
    if i == 0 {
        assert(seq![(k, bucket_merge(s[0].1, b))] + s.drop_first() =~= s.update(
            0,
            (k, bucket_merge(s[0].1, b)),
        ));
    } else {
        assert(lex_lt(s[0].0, k));
        lemma_lex_total(s[0].0, k);
        let s1 = s.drop_first();
        assert forall|j: int| 0 <= j < i - 1 implies lex_lt(#[trigger] s1[j].0, k) by {
            assert(s1[j] == s[j + 1]);
        }
        assert(s1[i - 1] == s[i]);
        lemma_spec_merge_one_update(s1, k, b, i - 1);
        assert(spec_merge_one(s, k, b) == seq![s[0]] + spec_merge_one(s1, k, b));
        assert(seq![s[0]] + s1.update(i - 1, (k, bucket_merge(s1[i - 1].1, b))) =~= s.update(
            i,
            (k, bucket_merge(s[i].1, b)),
        ));
    }
}

/// Same as `lemma_spec_apply_insert`, for merging a whole bucket.
proof fn lemma_spec_merge_one_insert(s: Seq<(Seq<u8>, Bucket)>, k: Seq<u8>, b: Bucket, i: int)
    requires
        0 <= i <= s.len(),
        forall|j: int| 0 <= j < i ==> lex_lt(#[trigger] s[j].0, k),
        i < s.len() ==> lex_lt(k, s[i].0),
    ensures
        spec_merge_one(s, k, b) == s.insert(i, (k, b)),
    decreases i,
{
    if s.len() == 0 {
        assert(spec_merge_one(s, k, b) =~= s.insert(0, (k, b)));
    } else if i == 0 {
        lemma_lex_total(k, s[0].0);
        assert(seq![(k, b)] + s =~= s.insert(0, (k, b)));
    } else {
        assert(lex_lt(s[0].0, k));
        lemma_lex_total(s[0].0, k);
        let s1 = s.drop_first();
        assert forall|j: int| 0 <= j < i - 1 implies lex_lt(#[trigger] s1[j].0, k) by {
            assert(s1[j] == s[j + 1]);
        }
        assert(i - 1 < s1.len() ==> s1[i - 1] == s[i]);
        lemma_spec_merge_one_insert(s1, k, b, i - 1);
        assert(spec_merge_one(s, k, b) == seq![s[0]] + spec_merge_one(s1, k, b));
        assert(seq![s[0]] + s1.insert(i - 1, (k, b)) =~= s.insert(i, (k, b)));
    }
}

/// The mapping from keys to running aggregates, sorted by key.
pub struct Aggregator {
    keys: Vec<Vec<u8>>,
    stats: Vec<TemperatureStats>,
    records: u64,
}

impl View for Aggregator {
    type V = Seq<(Seq<u8>, Bucket)>;

    closed spec fn view(&self) -> Seq<(Seq<u8>, Bucket)> {
        Seq::new(self.keys@.len(), |i: int| (self.keys@[i]@, self.stats@[i]@))
    }
}

impl Aggregator {
    /// How many records have been folded in (used to bound bucket counts).
    pub closed spec fn records_ghost(self) -> int {
        self.records as int
    }

    pub closed spec fn inv(self) -> bool {
        &&& self.keys@.len() == self.stats@.len()
        &&& sum_counts(self@) <= self.records as int
    }

    pub open spec fn wf(self) -> bool {
        &&& entries_wf(self@)
        &&& self.inv()
    }

    pub fn new() -> (a: Aggregator)
        ensures
            a.wf(),
            a@ == Seq::<(Seq<u8>, Bucket)>::empty(),
            a.records_ghost() == 0,
    {
        let a = Aggregator { keys: Vec::new(), stats: Vec::new(), records: 0 };
        proof {
            assert(a@ =~= Seq::<(Seq<u8>, Bucket)>::empty());
        }
        a
    }

    /// How many records have been folded in.
    pub fn records(&self) -> (r: u64)
        ensures
            r as int == self.records_ghost(),
    {
        self.records
    }

    /// The position `key` has or would get, and whether it is present.
    fn locate(&self, key: &[u8]) -> (r: (usize, bool))
        requires
            self.wf(),
        ensures
            r.0 <= self@.len(),
            forall|j: int| 0 <= j < r.0 ==> lex_lt((#[trigger] self@[j]).0, key@),
            r.1 ==> r.0 < self@.len() && self@[r.0 as int].0 == key@,
            !r.1 && r.0 < self@.len() ==> lex_lt(key@, self@[r.0 as int].0),
    {
        let n = self.keys.len();
        let mut i: usize = 0;
        while i < n
            invariant
                self.wf(),
                n == self@.len(),
                i <= n,
                forall|j: int| 0 <= j < i ==> lex_lt((#[trigger] self@[j]).0, key@),
            decreases n - i,
        {
            match key_cmp(self.keys[i].as_slice(), key) {
                KeyOrder::Less => {
                    assert(self@[i as int].0 == self.keys@[i as int]@);
                    i = i + 1;
                },
                KeyOrder::Equal => {
                    return (i, true);
                },
                KeyOrder::Greater => {
                    return (i, false);
                },
            }
        }
        (n, false)
    }

    /// Fold one `(key, value)` record in: seed a bucket on the first
    /// occurrence of the key, update it on every later one.
    pub fn apply(&mut self, key: &[u8], value: i64)
        requires
            old(self).wf(),
            -999 <= value <= 999,
            old(self).records_ghost() < u64::MAX,
        ensures
            final(self).wf(),
            final(self)@ == spec_apply(old(self)@, key@, value as int),
            final(self).records_ghost() == old(self).records_ghost() + 1,
    {
        let r = self.locate(key);
        let i: usize = r.0;
        let found: bool = r.1;
        if found {
            let mut st = self.stats[i];
            proof {
                assert(self@[i as int].1 == st@);
                lemma_sum_counts_elem(old(self)@, i as int);
            }
            st.update(value);
            self.stats[i] = st;
            self.records = self.records + 1;
            proof {
                lemma_spec_apply_update(old(self)@, key@, value as int, i as int);
                assert(self@ =~= old(self)@.update(
                    i as int,
                    (key@, bucket_add(old(self)@[i as int].1, value as int)),
                ));
                lemma_sum_counts_split(old(self)@, i as int);
                lemma_sum_counts_split(self@, i as int);
                assert(self@.take(i as int) =~= old(self)@.take(i as int));
                assert(self@.skip(i as int + 1) =~= old(self)@.skip(i as int + 1));
                assert forall|x: int, y: int|
                    0 <= x < y < self@.len() implies lex_lt(
                    (#[trigger] self@[x]).0,
                    (#[trigger] self@[y]).0,
                ) by {
                    assert(self@[x].0 == old(self)@[x].0);
                    assert(self@[y].0 == old(self)@[y].0);
                }
            }
        } else {
            let mut kv: Vec<u8> = Vec::new();
            kv.extend_from_slice(key);
            proof {
                assert(kv@ =~= key@);
            }
            self.keys.insert(i, kv);
            self.stats.insert(i, TemperatureStats::new(value));
            self.records = self.records + 1;
            proof {
                lemma_spec_apply_insert(old(self)@, key@, value as int, i as int);
                assert(self@ =~= old(self)@.insert(i as int, (key@, bucket_seed(value as int))));
                assert(old(self)@ =~= old(self)@.take(i as int) + old(self)@.skip(i as int));
                lemma_sum_counts_concat(old(self)@.take(i as int), old(self)@.skip(i as int));
                lemma_sum_counts_split(self@, i as int);
                assert(self@.take(i as int) =~= old(self)@.take(i as int));
                assert(self@.skip(i as int + 1) =~= old(self)@.skip(i as int));
                assert forall|x: int, y: int|
                    0 <= x < y < self@.len() implies lex_lt(
                    (#[trigger] self@[x]).0,
                    (#[trigger] self@[y]).0,
                ) by {
                    let s0 = old(self)@;
                    let ii = i as int;
                    if x < ii && y == ii {
                        assert(lex_lt(s0[x].0, key@));
                    } else if x == ii && y > ii {
                        if y - 1 == ii {
                            assert(lex_lt(key@, s0[ii].0));
                        } else {
                            lemma_lex_trans(key@, s0[ii].0, s0[y - 1].0);
                        }
                    } else if x < ii && y > ii {
                        assert(lex_lt(s0[x].0, s0[y - 1].0));
                    }
                }
            }
        }
    }

    /// Merge one foreign bucket in.
    fn merge_one(&mut self, key: &[u8], st: &TemperatureStats)
        requires
            old(self).wf(),
            st.wf(),
            old(self).records_ghost() + st@.count <= u64::MAX,
        ensures
            final(self).wf(),
            final(self)@ == spec_merge_one(old(self)@, key@, st@),
            final(self).records_ghost() == old(self).records_ghost() + st@.count,
    {
        let r = self.locate(key);
        let i: usize = r.0;
        let found: bool = r.1;
        if found {
            let mut mine = self.stats[i];
            proof {
                assert(self@[i as int].1 == mine@);
                lemma_sum_counts_elem(old(self)@, i as int);
            }
            mine.merge_from(st);
            self.stats[i] = mine;
            self.records = self.records + st.count();
            proof {
                lemma_spec_merge_one_update(old(self)@, key@, st@, i as int);
                assert(self@ =~= old(self)@.update(
                    i as int,
                    (key@, bucket_merge(old(self)@[i as int].1, st@)),
                ));
                lemma_sum_counts_split(old(self)@, i as int);
                lemma_sum_counts_split(self@, i as int);
                assert(self@.take(i as int) =~= old(self)@.take(i as int));
                assert(self@.skip(i as int + 1) =~= old(self)@.skip(i as int + 1));
                assert forall|x: int, y: int|
                    0 <= x < y < self@.len() implies lex_lt(
                    (#[trigger] self@[x]).0,
                    (#[trigger] self@[y]).0,
                ) by {
                    assert(self@[x].0 == old(self)@[x].0);
                    assert(self@[y].0 == old(self)@[y].0);
                }
            }
        } else {
            let mut kv: Vec<u8> = Vec::new();
            kv.extend_from_slice(key);
            proof {
                assert(kv@ =~= key@);
            }
            self.keys.insert(i, kv);
            self.stats.insert(i, *st);
            self.records = self.records + st.count();
            proof {
                lemma_spec_merge_one_insert(old(self)@, key@, st@, i as int);
                assert(self@ =~= old(self)@.insert(i as int, (key@, st@)));
                assert(old(self)@ =~= old(self)@.take(i as int) + old(self)@.skip(i as int));
                lemma_sum_counts_concat(old(self)@.take(i as int), old(self)@.skip(i as int));
                lemma_sum_counts_split(self@, i as int);
                assert(self@.take(i as int) =~= old(self)@.take(i as int));
                assert(self@.skip(i as int + 1) =~= old(self)@.skip(i as int));
                assert forall|x: int, y: int|
                    0 <= x < y < self@.len() implies lex_lt(
                    (#[trigger] self@[x]).0,
                    (#[trigger] self@[y]).0,
                ) by {
                    let s0 = old(self)@;
                    let ii = i as int;
                    if x < ii && y == ii {
                        assert(lex_lt(s0[x].0, key@));
                    } else if x == ii && y > ii {
                        if y - 1 == ii {
                            assert(lex_lt(key@, s0[ii].0));
                        } else {
                            lemma_lex_trans(key@, s0[ii].0, s0[y - 1].0);
                        }
                    } else if x < ii && y > ii {
                        assert(lex_lt(s0[x].0, s0[y - 1].0));
                    }
                }
            }
        }
    }

    /// Merge a whole table in, bucket by bucket: the pairwise merge of two
    /// partition aggregates.
    pub fn merge_from(&mut self, other: &Aggregator)
        requires
            old(self).wf(),
            other.wf(),
            old(self).records_ghost() + other.records_ghost() <= u64::MAX,
        ensures
            final(self).wf(),
            final(self)@ == spec_merge_fold(old(self)@, other@, other@.len() as int),
            final(self).records_ghost() <= old(self).records_ghost() + other.records_ghost(),
    {
        let n = other.keys.len();
        let mut j: usize = 0;
        while j < n
            invariant
                self.wf(),
                other.wf(),
                n == other@.len(),
                j <= n,
                self@ == spec_merge_fold(old(self)@, other@, j as int),
                self.records_ghost() == old(self).records_ghost() + sum_counts(
                    other@.take(j as int),
                ),
                old(self).records_ghost() + other.records_ghost() <= u64::MAX,
            decreases n - j,
        {
            let ghost jj: int = j as int;
            proof {
                assert(other@.take(jj + 1) =~= other@.take(jj) + seq![other@[jj]]);
                lemma_sum_counts_concat(other@.take(jj), seq![other@[jj]]);
                assert(seq![other@[jj]].drop_last() =~= Seq::<(Seq<u8>, Bucket)>::empty());
                assert(sum_counts(Seq::<(Seq<u8>, Bucket)>::empty()) == 0);
                assert(seq![other@[jj]].last() == other@[jj]);
                assert(sum_counts(seq![other@[jj]]) == other@[jj].1.count);
                assert(other@ =~= other@.take(jj + 1) + other@.skip(jj + 1));
                lemma_sum_counts_concat(other@.take(jj + 1), other@.skip(jj + 1));
                lemma_sum_counts_nonneg(other@.skip(jj + 1));
            }
            let st = other.stats[j];
            proof {
                assert(st@ == other@[jj].1);
                assert(bucket_wf(st@));
                assert(other.keys@[jj]@ == other@[jj].0);
            }
            self.merge_one(other.keys[j].as_slice(), &st);
            j = j + 1;
        }
        proof {
            assert(other@.take(n as int) =~= other@);
        }
    }

    /// The final report: `{k1=avg/max/min, k2=avg/max/min, ...}`, keys in
    /// strictly ascending lexicographic byte order, every figure printed
    /// with exactly one fractional digit.
    #[verifier::rlimit(50)]
    pub fn report(&self) -> (out: Vec<u8>)
        requires
            self.wf(),
        ensures
            out@ == spec_report(self@),
    {
        let mut out: Vec<u8> = Vec::new();
        out.push(LBRACE);
        let n = self.keys.len();
        let mut i: usize = 0;
        while i < n
            invariant
                self.wf(),
                n == self@.len(),
                i <= n,
                out@ == seq![LBRACE] + entries_prefix(self@, i as int),
            decreases n - i,
        {
            if i > 0 {
                out.push(COMMA);
                out.push(SPACE);
            }
            out.extend_from_slice(self.keys[i].as_slice());
            out.push(EQUALS);
            let st = self.stats[i];
            proof {
                assert(st@ == self@[i as int].1);
                assert(bucket_wf(st@));
            }
            let avg = st.average();
            push_scaled(&mut out, avg);
            out.push(SLASH);
            push_scaled(&mut out, st.max_value());
            out.push(SLASH);
            push_scaled(&mut out, st.min_value());
            proof {
                assert(out@ =~= seq![LBRACE] + entries_prefix(self@, i as int + 1));
            }
            i = i + 1;
        }
        out.push(RBRACE);
        proof {
            assert(out@ =~= spec_report(self@));
        }
        out
    }
}

/// The table after the first `n` buckets of `o` are merged into `s` in
/// order.
pub open spec fn spec_merge_fold(
    s: Seq<(Seq<u8>, Bucket)>,
    o: Seq<(Seq<u8>, Bucket)>,
    n: int,
) -> Seq<(Seq<u8>, Bucket)>
    decreases n,
{
    if n <= 0 {
        s
    } else {
        spec_merge_one(spec_merge_fold(s, o, n - 1), o[n - 1].0, o[n - 1].1)
    }
}

/// Law: the keys of every well-formed table stand in strictly ascending
/// lexicographic order, whatever order its records arrived in; the report
/// lists them in exactly that order.
pub proof fn lemma_report_order(a: Aggregator)
    requires
        a.wf(),
    ensures
        forall|i: int, j: int| 0 <= i < j < a@.len() ==> lex_lt(a@[i].0, a@[j].0),
{
    assert forall|i: int, j: int| 0 <= i < j < a@.len() implies lex_lt(a@[i].0, a@[j].0) by {
        assert(lex_lt((#[trigger] a@[i]).0, (#[trigger] a@[j]).0));
    }
}

} // verus!
