use vstd::prelude::*;
use vstd::string::StrSliceExecFns;
use crate::error::NVResult;
use crate::models::{
    lookup_entry, CondModel, DocModel, LogicalOperator, NVDocument, NVQuery, NVValue, QueryModel,
    QueryOperator, Val,
};
use crate::storage::docs_of;

verus! {

broadcast use {
    vstd::std_specs::vec::axiom_vec_index_decreases,
    vstd::std_specs::vec::axiom_vec_decreases_to_view,
    vstd::seq::axiom_seq_index_decreases,
    vstd::seq::axiom_seq_subrange_decreases,
};

// ---------------------------------------------------------------------------
// Value comparison, in specification
// ---------------------------------------------------------------------------

/// Type-aware structural equality: values of different shapes are unequal;
/// sequence values compare element-wise and map values entry-wise, in
/// entry order, recursively.
pub open spec fn values_equal_spec(a: Val, b: Val) -> bool
    decreases a,
{
    match (a, b) {
        (Val::Null, Val::Null) => true,
        (Val::Bool { b: x }, Val::Bool { b: y }) => x == y,
        (Val::Num { n: x }, Val::Num { n: y }) => x == y,
        (Val::Str { s: x }, Val::Str { s: y }) => x == y,
        (Val::Arr { items: x }, Val::Arr { items: y }) => vals_equal_list(x, y),
        (Val::Obj { fields: x }, Val::Obj { fields: y }) => entries_equal_list(x, y),
        _ => false,
    }
}

/// Two value sequences are equal element-wise under structural equality.
pub open spec fn vals_equal_list(x: Seq<Val>, y: Seq<Val>) -> bool
    decreases x,
{
    if x.len() != y.len() {
        false
    } else if x.len() == 0 {
        true
    } else {
        values_equal_spec(x[0], y[0]) && vals_equal_list(x.drop_first(), y.drop_first())
    }
}

/// Two entry sequences are equal entry-wise: same keys in the same order,
/// with structurally equal values.
pub open spec fn entries_equal_list(x: Seq<(Seq<char>, Val)>, y: Seq<(Seq<char>, Val)>) -> bool
    decreases x,
{
    if x.len() != y.len() {
        false
    } else if x.len() == 0 {
        true
    } else {
        x[0].0 == y[0].0 && values_equal_spec(x[0].1, y[0].1) && entries_equal_list(
            x.drop_first(),
            y.drop_first(),
        )
    }
}

/// Element-wise characterisation of sequence-value equality.
proof fn lemma_vals_equal_list_iff(a: Seq<Val>, b: Seq<Val>)
    ensures
        vals_equal_list(a, b) <==> (a.len() == b.len() && forall|j: int|
            0 <= j < a.len() ==> #[trigger] values_equal_spec(a[j], b[j])),
    decreases a.len(),
{
    if a.len() == b.len() && a.len() > 0 {
        lemma_vals_equal_list_iff(a.drop_first(), b.drop_first());
        if vals_equal_list(a, b) {
            assert forall|j: int| 0 <= j < a.len() implies #[trigger] values_equal_spec(
                a[j],
                b[j],
            ) by {
                if j > 0 {
                    assert(a[j] == a.drop_first()[j - 1] && b[j] == b.drop_first()[j - 1]);
                }
            }
        }
        if forall|j: int| 0 <= j < a.len() ==> #[trigger] values_equal_spec(a[j], b[j]) {
            assert forall|j: int|
                0 <= j < a.drop_first().len() implies #[trigger] values_equal_spec(
                a.drop_first()[j],
                b.drop_first()[j],
            ) by {
                assert(a.drop_first()[j] == a[j + 1] && b.drop_first()[j] == b[j + 1]);
            }
            assert(values_equal_spec(a[0], b[0]));
            assert(vals_equal_list(a, b));
        }
    }
}

/// Entry-wise characterisation of map-value equality.
proof fn lemma_entries_equal_list_iff(a: Seq<(Seq<char>, Val)>, b: Seq<(Seq<char>, Val)>)
    ensures
        entries_equal_list(a, b) <==> (a.len() == b.len() && (forall|j: int|
            0 <= j < a.len() ==> (#[trigger] a[j].0) == b[j].0) && (forall|j: int|
            0 <= j < a.len() ==> #[trigger] values_equal_spec(a[j].1, b[j].1))),
    decreases a.len(),
{
    if a.len() == b.len() && a.len() > 0 {
        lemma_entries_equal_list_iff(a.drop_first(), b.drop_first());
        if entries_equal_list(a, b) {
            assert forall|j: int| 0 <= j < a.len() implies (#[trigger] a[j].0) == b[j].0 by {
                if j > 0 {
                    assert(a[j] == a.drop_first()[j - 1] && b[j] == b.drop_first()[j - 1]);
                }
            }
            assert forall|j: int| 0 <= j < a.len() implies #[trigger] values_equal_spec(
                a[j].1,
                b[j].1,
            ) by {
                if j > 0 {
                    assert(a[j] == a.drop_first()[j - 1] && b[j] == b.drop_first()[j - 1]);
                }
            }
        }
        if (forall|j: int| 0 <= j < a.len() ==> (#[trigger] a[j].0) == b[j].0) && (forall|j: int|
            0 <= j < a.len() ==> #[trigger] values_equal_spec(a[j].1, b[j].1)) {
            assert forall|j: int|
                0 <= j < a.drop_first().len() implies (#[trigger] a.drop_first()[j].0)
                == b.drop_first()[j].0 by {
                assert(a.drop_first()[j] == a[j + 1] && b.drop_first()[j] == b[j + 1]);
            }
            assert forall|j: int|
                0 <= j < a.drop_first().len() implies #[trigger] values_equal_spec(
                a.drop_first()[j].1,
                b.drop_first()[j].1,
            ) by {
                assert(a.drop_first()[j] == a[j + 1] && b.drop_first()[j] == b[j + 1]);
            }
            assert(a[0].0 == b[0].0);
            assert(values_equal_spec(a[0].1, b[0].1));
            assert(entries_equal_list(a, b));
        }
    }
}

/// The needle occurs contiguously inside the haystack.
pub open spec fn is_substring(hay: Seq<char>, needle: Seq<char>) -> bool {
    exists|i: int|
        0 <= i && i + needle.len() <= hay.len() && #[trigger] hay.subrange(i, i + needle.len())
            == needle
}

/// The needle is a prefix of the haystack.
pub open spec fn is_prefix(hay: Seq<char>, needle: Seq<char>) -> bool {
    needle.len() <= hay.len() && hay.subrange(0, needle.len() as int) == needle
}

/// The needle is a suffix of the haystack.
pub open spec fn is_suffix(hay: Seq<char>, needle: Seq<char>) -> bool {
    needle.len() <= hay.len() && hay.subrange(
        hay.len() - needle.len(),
        hay.len() as int,
    ) == needle
}

/// The value occurs in the value sequence, under structural equality.
pub open spec fn val_in_list(v: Val, items: Seq<Val>) -> bool
    decreases items.len(),
{
    if items.len() == 0 {
        false
    } else {
        values_equal_spec(v, items[0]) || val_in_list(v, items.drop_first())
    }
}

/// The value occurs in the sequence value, under structural equality.
pub open spec fn in_array_spec(v: Val, arr: Val) -> bool {
    match arr {
        Val::Arr { items } => val_in_list(v, items),
        _ => false,
    }
}

/// A linear scan that stops at `i` finds the member that the membership
/// test names.
proof fn lemma_val_in_list_hit(v: Val, items: Seq<Val>, i: int)
    requires
        0 <= i < items.len(),
        values_equal_spec(v, items[i]),
    ensures
        val_in_list(v, items),
    decreases i,
{
    if i > 0 {
        lemma_val_in_list_hit(v, items.drop_first(), i - 1);
    }
}

/// A linear scan that finds no member refutes the membership test.
proof fn lemma_val_in_list_miss(v: Val, items: Seq<Val>)
    requires
        forall|k: int| 0 <= k < items.len() ==> !values_equal_spec(v, #[trigger] items[k]),
    ensures
        !val_in_list(v, items),
    decreases items.len(),
{
    if items.len() > 0 {
        assert forall|k: int|
            0 <= k < items.drop_first().len() implies !values_equal_spec(
            v,
            #[trigger] items.drop_first()[k],
        ) by {
            assert(items.drop_first()[k] == items[k + 1]);
        }
        lemma_val_in_list_miss(v, items.drop_first());
    }
}

/// What one operator says of a field value (left) and the query's
/// comparison value (right).  Order operators hold only between numbers;
/// the string tests only between strings; membership only when the right
/// side is a sequence value.
pub open spec fn compare_values_spec(left: Val, right: Val, op: QueryOperator) -> bool {
    match op {
        QueryOperator::Equals => values_equal_spec(left, right),
        QueryOperator::NotEquals => !values_equal_spec(left, right),
        QueryOperator::GreaterThan => left matches Val::Num { n: x } && right matches Val::Num {
            n: y,
        } && x > y,
        QueryOperator::GreaterThanOrEqual => left matches Val::Num { n: x } && right
            matches Val::Num { n: y } && x >= y,
        QueryOperator::LessThan => left matches Val::Num { n: x } && right matches Val::Num {
            n: y,
        } && x < y,
        QueryOperator::LessThanOrEqual => left matches Val::Num { n: x } && right
            matches Val::Num { n: y } && x <= y,
        QueryOperator::Contains => left matches Val::Str { s: h } && right matches Val::Str {
            s: n,
        } && is_substring(h, n),
        QueryOperator::StartsWith => left matches Val::Str { s: h } && right matches Val::Str {
            s: n,
        } && is_prefix(h, n),
        QueryOperator::EndsWith => left matches Val::Str { s: h } && right matches Val::Str {
            s: n,
        } && is_suffix(h, n),
        QueryOperator::In => in_array_spec(left, right),
        QueryOperator::NotIn => !in_array_spec(left, right),
    }
}

/// One condition evaluated on a document: false when the field is absent.
pub open spec fn eval_cond(d: DocModel, c: CondModel) -> bool {
    match lookup_entry(d.data, c.field) {
        Some(v) => compare_values_spec(v, c.value, c.operator),
        None => false,
    }
}

/// Left-to-right fold of the remaining connectors onto the running result,
/// with no precedence: connector `i` combines the running result with
/// condition `i + 1`.
pub open spec fn fold_conds(d: DocModel, q: QueryModel, acc: bool, i: int) -> bool
    decreases q.logical_operators.len() - i,
{
    if i < 0 || i >= q.logical_operators.len() || i + 1 >= q.conditions.len() {
        acc
    } else {
        let nxt = eval_cond(d, q.conditions[i + 1]);
        let acc2 = match q.logical_operators[i] {
            LogicalOperator::And => acc && nxt,
            LogicalOperator::Or => acc || nxt,
        };
        fold_conds(d, q, acc2, i + 1)
    }
}

/// Whether a document matches a query: with no conditions every document
/// matches; otherwise the conditions are folded left to right.
pub open spec fn matches_query_spec(d: DocModel, q: QueryModel) -> bool {
    if q.conditions.len() == 0 {
        true
    } else {
        fold_conds(d, q, eval_cond(d, q.conditions[0]), 0)
    }
}

// ---------------------------------------------------------------------------
// Ordering, in specification
// ---------------------------------------------------------------------------

/// Lexicographic three-way comparison of two character sequences.
pub open spec fn str_cmp(a: Seq<char>, b: Seq<char>) -> int
    decreases a.len(),
{
    if a.len() == 0 && b.len() == 0 {
        0
    } else if a.len() == 0 {
        -1
    } else if b.len() == 0 {
        1
    } else if (a[0] as u32) < (b[0] as u32) {
        -1
    } else if (a[0] as u32) > (b[0] as u32) {
        1
    } else {
        str_cmp(a.drop_first(), b.drop_first())
    }
}

/// A lexicographic comparison is one of -1, 0 and 1.
pub proof fn lemma_str_cmp_range(a: Seq<char>, b: Seq<char>)
    ensures
        -1 <= str_cmp(a, b) <= 1,
    decreases a.len(),
{
    if a.len() > 0 && b.len() > 0 && (a[0] as u32) == (b[0] as u32) {
        lemma_str_cmp_range(a.drop_first(), b.drop_first());
    }
}

/// Type-aware three-way comparison of two documents on one field: numbers
/// numerically, strings lexicographically, booleans with false first; a
/// document missing the field sorts after one that has it; two documents
/// both missing it, or of incomparable types, are equal here.
pub open spec fn cmp_docs(field: Seq<char>, a: DocModel, b: DocModel) -> int {
    match (lookup_entry(a.data, field), lookup_entry(b.data, field)) {
        (Some(Val::Num { n: x }), Some(Val::Num { n: y })) => if x < y {
            -1
        } else if x > y {
            1
        } else {
            0
        },
        (Some(Val::Str { s: x }), Some(Val::Str { s: y })) => str_cmp(x, y),
        (Some(Val::Bool { b: x }), Some(Val::Bool { b: y })) => if !x && y {
            -1
        } else if x && !y {
            1
        } else {
            0
        },
        (Some(_), None) => -1,
        (None, Some(_)) => 1,
        _ => 0,
    }
}

/// The comparison with the direction flag applied: descending reverses it,
/// missing-field placement included.
pub open spec fn cmp_docs_dir(field: Seq<char>, desc: bool, a: DocModel, b: DocModel) -> int {
    if desc {
        -cmp_docs(field, a, b)
    } else {
        cmp_docs(field, a, b)
    }
}

/// Stable insertion: the new document goes before the first element that
/// must come strictly after it, hence after every element equal to it.
pub open spec fn insert_sorted(
    field: Seq<char>,
    desc: bool,
    d: DocModel,
    s: Seq<DocModel>,
) -> Seq<DocModel>
    decreases s.len(),
{
    if s.len() == 0 {
        seq![d]
    } else if cmp_docs_dir(field, desc, s[0], d) > 0 {
        seq![d] + s
    } else {
        seq![s[0]] + insert_sorted(field, desc, d, s.drop_first())
    }
}

/// Stable insertion sort of the documents on one field: the deterministic
/// ordering that sorting applies.
pub open spec fn sort_spec(field: Seq<char>, desc: bool, s: Seq<DocModel>) -> Seq<DocModel>
    decreases s.len(),
{
    if s.len() == 0 {
        Seq::empty()
    } else {
        insert_sorted(field, desc, s.last(), sort_spec(field, desc, s.drop_last()))
    }
}

// ---------------------------------------------------------------------------
// Filtering, in specification
// ---------------------------------------------------------------------------

/// The documents that match the query, in their given order.
pub open spec fn filter_docs(docs: Seq<DocModel>, q: QueryModel) -> Seq<DocModel>
    decreases docs.len(),
{
    if docs.len() == 0 {
        Seq::empty()
    } else {
        (if matches_query_spec(docs[0], q) {
            seq![docs[0]]
        } else {
            Seq::empty()
        }) + filter_docs(docs.drop_first(), q)
    }
}

/// The whole evaluation: match, then order when an order field is named,
/// then skip, then limit.  Skipping past the end yields nothing.
pub open spec fn filter_spec(docs: Seq<DocModel>, q: QueryModel) -> Seq<DocModel> {
    let matched = filter_docs(docs, q);
    let ordered = match q.order_by {
        Some(f) => sort_spec(f, q.order_desc, matched),
        None => matched,
    };
    let after_skip = match q.skip {
        Some(k) => if k <= ordered.len() {
            ordered.skip(k as int)
        } else {
            Seq::empty()
        },
        None => ordered,
    };
    match q.limit {
        Some(l) => if l <= after_skip.len() {
            after_skip.take(l as int)
        } else {
            after_skip
        },
        None => after_skip,
    }
}

// ---------------------------------------------------------------------------
// Executable evaluator
// ---------------------------------------------------------------------------

/// Lexicographic three-way comparison of two strings.
pub(crate) fn str_compare(a: &String, b: &String) -> (r: i8)
    ensures
        r as int == str_cmp(a@, b@),
{
    let an: usize = a.as_str().unicode_len();
    let bn: usize = b.as_str().unicode_len();
    let mut i: usize = 0;
    proof {
        assert(a@.skip(0) =~= a@);
        assert(b@.skip(0) =~= b@);
    }
    loop
        invariant
            i <= an,
            i <= bn,
            an == a@.len(),
            bn == b@.len(),
            str_cmp(a@, b@) == str_cmp(a@.skip(i as int), b@.skip(i as int)),
        ensures
            i <= an && i <= bn,
            str_cmp(a@, b@) == str_cmp(a@.skip(i as int), b@.skip(i as int)),
            i == an || i == bn || (a@[i as int] as u32) != (b@[i as int] as u32),
        decreases an - i,
    {
        if i >= an || i >= bn {
            break;
        }
        let ca = a.as_str().get_char(i);
        let cb = b.as_str().get_char(i);
        if (ca as u32) != (cb as u32) {
            break;
        }
        proof {
            assert(a@.skip(i as int).drop_first() =~= a@.skip(i + 1));
            assert(b@.skip(i as int).drop_first() =~= b@.skip(i + 1));
            assert(a@.skip(i as int)[0] == a@[i as int]);
            assert(b@.skip(i as int)[0] == b@[i as int]);
        }
        i = i + 1;
    }
    proof {
        assert(a@.skip(i as int).len() == a@.len() - i);
        assert(b@.skip(i as int).len() == b@.len() - i);
        if i < an {
            assert(a@.skip(i as int)[0] == a@[i as int]);
        }
        if i < bn {
            assert(b@.skip(i as int)[0] == b@[i as int]);
        }
    }
    if i == an && i == bn {
        0
    } else if i == an {
        -1
    } else if i == bn {
        1
    } else {
        let ca = a.as_str().get_char(i);
        let cb = b.as_str().get_char(i);
        if (ca as u32) < (cb as u32) {
            -1
        } else {
            1
        }
    }
}

/// Whether the needle is a prefix of the haystack starting at `at`.
#[verifier::loop_isolation(false)]
fn match_at(hay: &String, needle: &String, at: usize) -> (r: bool)
    requires
        at + needle@.len() <= hay@.len(),
    ensures
        r == (hay@.subrange(at as int, at + needle@.len()) == needle@),
{
    let hn: usize = hay.as_str().unicode_len();
    let m: usize = needle.as_str().unicode_len();
    let mut j: usize = 0;
    while j < m
        invariant
            j <= m,
            m == needle@.len(),
            at + m <= hay@.len(),
            forall|k: int| 0 <= k < j ==> hay@[at + k] == needle@[k],
        decreases m - j,
    {
        let hc = hay.as_str().get_char(at + j);
        let nc = needle.as_str().get_char(j);
        if (hc as u32) != (nc as u32) {
            proof {
                assert(hay@.subrange(at as int, at + needle@.len())[j as int] == hay@[at + j]);
                assert((hc as u32) != (nc as u32) ==> hc != nc);
            }
            return false;
        }
        proof {
            assert((hc as u32) == (nc as u32) ==> hc == nc) by {
                vstd::utf8::char_u32_cast(hc, nc as u32);
            }
        }
        j = j + 1;
    }
    proof {
        assert(hay@.subrange(at as int, at + needle@.len()) =~= needle@);
    }
    true
}

/// The query processor: pure filtering, ordering and pagination over
/// decoded documents.
#[derive(Debug)]
pub struct QueryProcessor;

impl QueryProcessor {
    /// A processor; it holds no state.
    pub fn new() -> (r: QueryProcessor) {
        QueryProcessor
    }

    /// Whether the haystack string contains the needle string.
    #[verifier::loop_isolation(false)]
    fn string_contains_str(&self, hay: &String, needle: &String) -> (r: bool)
        ensures
            r == is_substring(hay@, needle@),
    {
        let n: usize = hay.as_str().unicode_len();
        let m: usize = needle.as_str().unicode_len();
        if m > n {
            return false;
        }
        if m == 0 {
            proof {
                assert(hay@.subrange(0int, 0int + needle@.len()) =~= needle@);
                assert(is_substring(hay@, needle@));
            }
            return true;
        }
        let mut i: usize = 0;
        while i <= n - m
            invariant
                m <= n,
                n == hay@.len(),
                m == needle@.len(),
                i <= n - m + 1,
                forall|k: int|
                    0 <= k < i ==> #[trigger] hay@.subrange(k, k + needle@.len()) != needle@,
            decreases n - i,
        {
            if match_at(hay, needle, i) {
                proof {
                    assert((i as int) + needle@.len() <= hay@.len() && hay@.subrange(
                        i as int,
                        (i as int) + needle@.len(),
                    ) == needle@);
                    assert(is_substring(hay@, needle@));
                }
                return true;
            }
            i = i + 1;
        }
        false
    }

    /// Whether two values are equal under the evaluator's structural
    /// equality.
    #[verifier::loop_isolation(false)]
    pub fn values_equal(&self, left: &NVValue, right: &NVValue) -> (r: bool)
        ensures
            r == values_equal_spec(left@, right@),
        decreases left,
    {
        match (left, right) {
            (NVValue::Null, NVValue::Null) => true,
            (NVValue::Bool(a), NVValue::Bool(b)) => *a == *b,
            (NVValue::Number(a), NVValue::Number(b)) => *a == *b,
            (NVValue::String(a), NVValue::String(b)) => *a == *b,
            (NVValue::Array(x), NVValue::Array(y)) => {
                proof {
                    crate::models::lemma_vals_of_len(x@);
                    crate::models::lemma_vals_of_len(y@);
                    lemma_vals_equal_list_iff(
                        crate::models::vals_of(x@),
                        crate::models::vals_of(y@),
                    );
                }
                if x.len() != y.len() {
                    return false;
                }
                let mut i: usize = 0;
                while i < x.len()
                    invariant
                        i <= x@.len(),
                        x@.len() == y@.len(),
                        forall|j: int|
                            0 <= j < i ==> #[trigger] values_equal_spec(
                                crate::models::vals_of(x@)[j],
                                crate::models::vals_of(y@)[j],
                            ),
                    decreases x@.len() - i,
                {
                    proof {
                        assert(*x == left->Array_0);
                        assert(decreases_to!(*left => left->Array_0@[i as int]));
                        assert(crate::models::vals_of(x@)[i as int] == crate::models::val_of(
                            x@[i as int],
                        ));
                        assert(crate::models::vals_of(y@)[i as int] == crate::models::val_of(
                            y@[i as int],
                        ));
                    }
                    if !self.values_equal(&x[i], &y[i]) {
                        return false;
                    }
                    i = i + 1;
                }
                true
            },
            (NVValue::Object(x), NVValue::Object(y)) => {
                proof {
                    crate::models::lemma_entries_of_len(x@);
                    crate::models::lemma_entries_of_len(y@);
                    lemma_entries_equal_list_iff(
                        crate::models::entries_of(x@),
                        crate::models::entries_of(y@),
                    );
                }
                if x.len() != y.len() {
                    return false;
                }
                let mut i: usize = 0;
                while i < x.len()
                    invariant
                        i <= x@.len(),
                        x@.len() == y@.len(),
                        forall|j: int|
                            0 <= j < i ==> (#[trigger] crate::models::entries_of(x@)[j].0)
                                == crate::models::entries_of(y@)[j].0,
                        forall|j: int|
                            0 <= j < i ==> #[trigger] values_equal_spec(
                                crate::models::entries_of(x@)[j].1,
                                crate::models::entries_of(y@)[j].1,
                            ),
                    decreases x@.len() - i,
                {
                    proof {
                        assert(*x == left->Object_0);
                        assert(decreases_to!(*left => left->Object_0@[i as int].value));
                        assert(crate::models::entries_of(x@)[i as int].0 == x@[i as int].key@
                            && crate::models::entries_of(x@)[i as int].1 == crate::models::val_of(
                            x@[i as int].value,
                        ));
                        assert(crate::models::entries_of(y@)[i as int].0 == y@[i as int].key@
                            && crate::models::entries_of(y@)[i as int].1 == crate::models::val_of(
                            y@[i as int].value,
                        ));
                    }
                    if x[i].key != y[i].key {
                        return false;
                    }
                    if !self.values_equal(&x[i].value, &y[i].value) {
                        return false;
                    }
                    i = i + 1;
                }
                true
            },
            _ => false,
        }
    }

    /// Whether the value occurs in the sequence value.
    #[verifier::loop_isolation(false)]
    fn value_in_array(&self, value: &NVValue, array: &NVValue) -> (r: bool)
        ensures
            r == in_array_spec(value@, array@),
    {
        match array {
            NVValue::Array(items) => {
                proof {
                    crate::models::lemma_vals_of_len(items@);
                }
                let mut i: usize = 0;
                while i < items.len()
                    invariant
                        i <= items@.len(),
                        forall|k: int|
                            0 <= k < i ==> !values_equal_spec(
                                value@,
                                #[trigger] crate::models::vals_of(items@)[k],
                            ),
                    decreases items@.len() - i,
                {
                    proof {
                        assert(crate::models::vals_of(items@)[i as int] == crate::models::val_of(
                            items@[i as int],
                        ));
                    }
                    if self.values_equal(value, &items[i]) {
                        proof {
                            assert(*items == array->Array_0);
                            lemma_val_in_list_hit(
                                value@,
                                crate::models::vals_of(items@),
                                i as int,
                            );
                        }
                        return true;
                    }
                    i = i + 1;
                }
                proof {
                    assert(*items == array->Array_0);
                    lemma_val_in_list_miss(value@, crate::models::vals_of(items@));
                }
                false
            },
            _ => false,
        }
    }

    /// What one operator says of a field value and a comparison value.
    pub fn compare_values(&self, left: &NVValue, right: &NVValue, operator: &QueryOperator) -> (r:
        bool)
        ensures
            r == compare_values_spec(left@, right@, *operator),
    {
        match operator {
            QueryOperator::Equals => self.values_equal(left, right),
            QueryOperator::NotEquals => !self.values_equal(left, right),
            QueryOperator::GreaterThan => match (left, right) {
                (NVValue::Number(a), NVValue::Number(b)) => *a > *b,
                _ => false,
            },
            QueryOperator::GreaterThanOrEqual => match (left, right) {
                (NVValue::Number(a), NVValue::Number(b)) => *a >= *b,
                _ => false,
            },
            QueryOperator::LessThan => match (left, right) {
                (NVValue::Number(a), NVValue::Number(b)) => *a < *b,
                _ => false,
            },
            QueryOperator::LessThanOrEqual => match (left, right) {
                (NVValue::Number(a), NVValue::Number(b)) => *a <= *b,
                _ => false,
            },
            QueryOperator::Contains => match (left, right) {
                (NVValue::String(h), NVValue::String(n)) => self.string_contains_str(h, n),
                _ => false,
            },
            QueryOperator::StartsWith => match (left, right) {
                (NVValue::String(h), NVValue::String(n)) => {
                    let hn: usize = h.as_str().unicode_len();
                    let nn: usize = n.as_str().unicode_len();
                    if nn > hn {
                        false
                    } else {
                        match_at(h, n, 0)
                    }
                },
                _ => false,
            },
            QueryOperator::EndsWith => match (left, right) {
                (NVValue::String(h), NVValue::String(n)) => {
                    let hn: usize = h.as_str().unicode_len();
                    let nn: usize = n.as_str().unicode_len();
                    if nn > hn {
                        false
                    } else {
                        match_at(h, n, hn - nn)
                    }
                },
                _ => false,
            },
            QueryOperator::In => self.value_in_array(left, right),
            QueryOperator::NotIn => !self.value_in_array(left, right),
        }
    }

    /// One condition evaluated on a document: false when the field is
    /// absent.
    fn evaluate_condition(&self, document: &NVDocument, condition: &crate::models::QueryCondition)
        -> (r: bool)
        ensures
            r == eval_cond(document@, condition@),
    {
        match document.get(condition.field.as_str()) {
            Some(v) => self.compare_values(v, &condition.value, &condition.operator),
            None => false,
        }
    }

    /// Whether a document matches every condition of the query, folded left
    /// to right.
    #[verifier::loop_isolation(false)]
    fn matches_query(&self, document: &NVDocument, query: &NVQuery) -> (r: bool)
        ensures
            r == matches_query_spec(document@, query@),
    {
        if query.conditions.len() == 0 {
            return true;
        }
        let mut result = self.evaluate_condition(document, &query.conditions[0]);
        let mut i: usize = 0;
        while i < query.logical_operators.len()
            invariant
                i <= query.logical_operators@.len(),
                matches_query_spec(document@, query@) == fold_conds(
                    document@,
                    query@,
                    result,
                    i as int,
                ),
            decreases query.logical_operators@.len() - i,
        {
            let next_idx = i + 1;
            if next_idx >= query.conditions.len() {
                proof {
                    assert(fold_conds(document@, query@, result, i as int) == result);
                }
                return result;
            }
            let next = self.evaluate_condition(document, &query.conditions[next_idx]);
            result = match query.logical_operators[i] {
                LogicalOperator::And => result && next,
                LogicalOperator::Or => result || next,
            };
            i = i + 1;
        }
        result
    }

    /// Type-aware three-way comparison of two documents on the order field,
    /// with the direction applied.
    fn compare_docs(&self, a: &NVDocument, b: &NVDocument, field: &String, desc: bool) -> (r: i8)
        ensures
            r as int == cmp_docs_dir(field@, desc, a@, b@),
    {
        let av = a.get(field.as_str());
        let bv = b.get(field.as_str());
        let base: i8 = match (av, bv) {
            (Some(NVValue::Number(x)), Some(NVValue::Number(y))) => {
                if *x < *y {
                    -1
                } else if *x > *y {
                    1
                } else {
                    0
                }
            },
            (Some(NVValue::String(x)), Some(NVValue::String(y))) => {
                proof {
                    lemma_str_cmp_range(x@, y@);
                }
                str_compare(x, y)
            },
            (Some(NVValue::Bool(x)), Some(NVValue::Bool(y))) => {
                if !*x && *y {
                    -1
                } else if *x && !*y {
                    1
                } else {
                    0
                }
            },
            (Some(_), None) => -1,
            (None, Some(_)) => 1,
            _ => 0,
        };
        if desc {
            if base == -1 {
                1
            } else if base == 1 {
                -1
            } else {
                0
            }
        } else {
            base
        }
    }

    /// Filters the documents by the query, orders them when an order field
    /// is named, then applies skip and limit.
    #[verifier::loop_isolation(false)]
    pub fn filter(&self, documents: Vec<NVDocument>, query: &NVQuery) -> (r: NVResult<
        Vec<NVDocument>,
    >)
        ensures
            r matches Ok(out) && docs_of(out@) == filter_spec(docs_of(documents@), query@),
    {
        let ghost all = docs_of(documents@);
        let ghost q = query@;
        // Match
        let mut matched: Vec<NVDocument> = Vec::new();
        let mut i: usize = 0;
        proof {
            assert(all.take(0) =~= Seq::<DocModel>::empty());
            assert(docs_of(matched@) =~= filter_docs(all.take(0), q));
        }
        while i < documents.len()
            invariant
                i <= documents@.len(),
                docs_of(matched@) == filter_docs(all.take(i as int), q),
            decreases documents@.len() - i,
        {
            proof {
                lemma_filter_docs_snoc(all, q, i as int);
            }
            if self.matches_query(&documents[i], query) {
                let ghost before = docs_of(matched@);
                matched.push(documents[i].clone());
                proof {
                    assert(docs_of(matched@) =~= before + seq![all[i as int]]);
                }
            }
            proof {
                assert(docs_of(matched@) =~= filter_docs(all.take(i + 1), q));
            }
            i = i + 1;
        }
        proof {
            assert(all.take(all.len() as int) =~= all);
        }
        // Order
        let mut results: Vec<NVDocument> = matched;
        if let Some(order_field) = &query.order_by {
            let ghost pre_sort = docs_of(results@);
            let source = results;
            let mut sorted: Vec<NVDocument> = Vec::new();
            let mut i2: usize = 0;
            proof {
                assert(pre_sort.take(0) =~= Seq::<DocModel>::empty());
                assert(docs_of(sorted@) =~= sort_spec(order_field@, query.order_desc, pre_sort.take(0)));
            }
            while i2 < source.len()
                invariant
                    i2 <= source@.len(),
                    docs_of(sorted@) == sort_spec(
                        order_field@,
                        query.order_desc,
                        pre_sort.take(i2 as int),
                    ),
                decreases source@.len() - i2,
            {
                let d = source[i2].clone();
                // find the stable insertion point
                let mut j: usize = 0;
                while j < sorted.len()
                    invariant
                        j <= sorted@.len(),
                        forall|k: int|
                            0 <= k < j ==> cmp_docs_dir(
                                order_field@,
                                query.order_desc,
                                #[trigger] docs_of(sorted@)[k],
                                d@,
                            ) <= 0,
                    decreases sorted@.len() - j,
                {
                    proof {
                        assert(docs_of(sorted@)[j as int] == sorted@[j as int]@);
                    }
                    if self.compare_docs(&sorted[j], &d, order_field, query.order_desc) > 0 {
                        break;
                    }
                    j = j + 1;
                }
                proof {
                    if j < sorted@.len() {
                        assert(docs_of(sorted@)[j as int] == sorted@[j as int]@);
                    }
                    lemma_insert_sorted_at(
                        order_field@,
                        query.order_desc,
                        d@,
                        docs_of(sorted@),
                        j as int,
                    );
                    let t = pre_sort.take(i2 + 1);
                    assert(t.drop_last() =~= pre_sort.take(i2 as int));
                    assert(t.last() == pre_sort[i2 as int]);
                }
                let ghost before = docs_of(sorted@);
                sorted.insert(j, d);
                proof {
                    assert(docs_of(sorted@) =~= before.insert(j as int, d@));
                    assert(docs_of(sorted@) =~= sort_spec(
                        order_field@,
                        query.order_desc,
                        pre_sort.take(i2 + 1),
                    ));
                }
                i2 = i2 + 1;
            }
            proof {
                assert(pre_sort.take(pre_sort.len() as int) =~= pre_sort);
            }
            results = sorted;
        }
        // Skip and limit
        let ghost ordered = docs_of(results@);
        let start: usize = match query.skip {
            Some(k) => if k > results.len() {
                results.len()
            } else {
                k
            },
            None => 0,
        };
        let end: usize = match query.limit {
            Some(l) => if l > results.len() - start {
                results.len()
            } else {
                start + l
            },
            None => results.len(),
        };
        let mut page: Vec<NVDocument> = Vec::new();
        let mut i3: usize = start;
        while i3 < end
            invariant
                start <= i3 <= end <= results@.len(),
                docs_of(page@) == ordered.subrange(start as int, i3 as int),
                ordered == docs_of(results@),
            decreases end - i3,
        {
            let ghost before = docs_of(page@);
            page.push(results[i3].clone());
            proof {
                assert(docs_of(page@) =~= ordered.subrange(start as int, i3 + 1));
            }
            i3 = i3 + 1;
        }
        proof {
            let after_skip = match q.skip {
                Some(k) => if k <= ordered.len() {
                    ordered.skip(k as int)
                } else {
                    Seq::<DocModel>::empty()
                },
                None => ordered,
            };
            let expect = match q.limit {
                Some(l) => if l <= after_skip.len() {
                    after_skip.take(l as int)
                } else {
                    after_skip
                },
                None => after_skip,
            };
            assert(docs_of(page@) =~= expect);
        }
        Ok(page)
    }
}

impl Default for QueryProcessor {
    fn default() -> (r: QueryProcessor) {
        QueryProcessor::new()
    }
}

/// Filtering one more document appends it exactly when it matches.
proof fn lemma_filter_docs_snoc(docs: Seq<DocModel>, q: QueryModel, i: int)
    requires
        0 <= i < docs.len(),
    ensures
        filter_docs(docs.take(i + 1), q) == filter_docs(docs.take(i), q) + (if matches_query_spec(
            docs[i],
            q,
        ) {
            seq![docs[i]]
        } else {
            Seq::<DocModel>::empty()
        }),
    decreases i,
{
    if i == 0 {
        assert(docs.take(0) =~= Seq::<DocModel>::empty());
        let s0 = docs.take(1);
        assert(s0.len() == 1 && s0[0] == docs[0]);
        assert(s0.drop_first() =~= Seq::<DocModel>::empty());
        assert(filter_docs(docs.take(1), q) =~= filter_docs(docs.take(0), q) + (
        if matches_query_spec(docs[0], q) {
            seq![docs[0]]
        } else {
            Seq::<DocModel>::empty()
        }));
    } else {
        lemma_filter_docs_snoc(docs.drop_first(), q, i - 1);
        assert(docs.take(i + 1).drop_first() =~= docs.drop_first().take(i));
        assert(docs.take(i).drop_first() =~= docs.drop_first().take(i - 1));
        assert(docs.take(i + 1)[0] == docs[0]);
        assert(docs.take(i)[0] == docs[0]);
        assert(docs.drop_first()[i - 1] == docs[i]);
        assert(filter_docs(docs.take(i + 1), q) =~= filter_docs(docs.take(i), q) + (
        if matches_query_spec(docs[i], q) {
            seq![docs[i]]
        } else {
            Seq::<DocModel>::empty()
        }));
    }
}

/// Inserting at the first position whose element must come strictly after
/// the new document is exactly the stable insertion.
proof fn lemma_insert_sorted_at(
    field: Seq<char>,
    desc: bool,
    d: DocModel,
    s: Seq<DocModel>,
    j: int,
)
    requires
        0 <= j <= s.len(),
        forall|k: int| 0 <= k < j ==> cmp_docs_dir(field, desc, #[trigger] s[k], d) <= 0,
        j < s.len() ==> cmp_docs_dir(field, desc, s[j], d) > 0,
    ensures
        insert_sorted(field, desc, d, s) == s.insert(j, d),
    decreases j,
{
    if j == 0 {
        if s.len() == 0 {
            assert(insert_sorted(field, desc, d, s) =~= s.insert(0, d));
        } else {
            assert(insert_sorted(field, desc, d, s) =~= s.insert(0, d));
        }
    } else {
        lemma_insert_sorted_at(field, desc, d, s.drop_first(), j - 1);
        assert(s.drop_first().insert(j - 1, d) =~= s.insert(j, d).drop_first());
        assert(insert_sorted(field, desc, d, s) =~= s.insert(j, d));
    }
}

} // verus!
