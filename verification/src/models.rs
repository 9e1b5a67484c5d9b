use vstd::prelude::*;

verus! {

broadcast use {
    vstd::std_specs::vec::axiom_vec_index_decreases,
    vstd::std_specs::vec::axiom_vec_decreases_to_view,
    vstd::seq::axiom_seq_index_decreases,
    vstd::seq::axiom_seq_subrange_decreases,
};

/// Mathematical model of a dynamically-typed field value.
pub enum Val {
    Null,
    Bool { b: bool },
    Num { n: i64 },
    Str { s: Seq<char> },
    Arr { items: Seq<Val> },
    Obj { fields: Seq<(Seq<char>, Val)> },
}

/// One key/value entry of an object value or of a document's field map.
#[derive(Debug, PartialEq)]
pub struct NVField {
    pub key: String,
    pub value: NVValue,
}

/// Dynamically-typed value stored in a document's field map.
#[derive(Debug, PartialEq)]
pub enum NVValue {
    Null,
    Bool(bool),
    Number(i64),
    String(String),
    Array(Vec<NVValue>),
    Object(Vec<NVField>),
}

/// Model of a value: the abstract shape that contracts speak of.
pub open spec fn val_of(v: NVValue) -> Val
    decreases v,
{
    match v {
        NVValue::Null => Val::Null,
        NVValue::Bool(b) => Val::Bool { b },
        NVValue::Number(n) => Val::Num { n },
        NVValue::String(s) => Val::Str { s: s@ },
        NVValue::Array(items) => Val::Arr { items: vals_of(items@) },
        NVValue::Object(fields) => Val::Obj { fields: entries_of(fields@) },
    }
}

/// Models every value of a sequence.
pub open spec fn vals_of(s: Seq<NVValue>) -> Seq<Val>
    decreases s,
{
    if s.len() == 0 {
        Seq::empty()
    } else {
        seq![val_of(s[0])] + vals_of(s.drop_first())
    }
}

/// Models every key/value entry of a sequence.
pub open spec fn entries_of(s: Seq<NVField>) -> Seq<(Seq<char>, Val)>
    decreases s,
{
    if s.len() == 0 {
        Seq::empty()
    } else {
        seq![(s[0].key@, val_of(s[0].value))] + entries_of(s.drop_first())
    }
}

impl View for NVValue {
    type V = Val;

    open spec fn view(&self) -> Val {
        val_of(*self)
    }
}

pub broadcast proof fn lemma_vals_of_len(s: Seq<NVValue>)
    ensures
        (#[trigger] vals_of(s)).len() == s.len(),
        forall|i: int| 0 <= i < s.len() ==> vals_of(s)[i] == val_of(s[i]),
    decreases s.len(),
{
    if s.len() > 0 {
        lemma_vals_of_len(s.drop_first());
    }
}

pub broadcast proof fn lemma_entries_of_len(s: Seq<NVField>)
    ensures
        (#[trigger] entries_of(s)).len() == s.len(),
        forall|i: int|
            0 <= i < s.len() ==> entries_of(s)[i] == (s[i].key@, val_of(s[i].value)),
    decreases s.len(),
{
    if s.len() > 0 {
        lemma_entries_of_len(s.drop_first());
    }
}

impl Clone for NVValue {
    #[verifier::loop_isolation(false)]
    fn clone(&self) -> (r: NVValue)
        ensures
            r@ == self@,
        decreases self,
    {
        match self {
            NVValue::Null => NVValue::Null,
            NVValue::Bool(b) => NVValue::Bool(*b),
            NVValue::Number(n) => NVValue::Number(*n),
            NVValue::String(s) => NVValue::String(s.clone()),
            NVValue::Array(items) => {
                let mut out: Vec<NVValue> = Vec::new();
                let mut i: usize = 0;
                while i < items.len()
                    invariant
                        i <= items.len(),
                        out@.len() == i,
                        forall|k: int|
                            0 <= k < i ==> #[trigger] val_of(out@[k]) == val_of(items@[k]),
                    decreases items.len() - i,
                {
                    proof {
                        assert(*items == self->Array_0);
                        assert(decreases_to!(*self => self->Array_0@[i as int]));
                    }
                    out.push(items[i].clone());
                    i = i + 1;
                }
                proof {
                    lemma_vals_of_elementwise(out@, items@);
                }
                NVValue::Array(out)
            },
            NVValue::Object(fields) => {
                let mut out: Vec<NVField> = Vec::new();
                let mut i: usize = 0;
                while i < fields.len()
                    invariant
                        i <= fields.len(),
                        out@.len() == i,
                        forall|k: int| 0 <= k < i ==> #[trigger] out@[k].key@ == fields@[k].key@,
                        forall|k: int|
                            0 <= k < i ==> #[trigger] val_of(out@[k].value) == val_of(
                                fields@[k].value,
                            ),
                    decreases fields.len() - i,
                {
                    proof {
                        assert(*fields == self->Object_0);
                        assert(decreases_to!(*self => self->Object_0@[i as int].value));
                    }
                    let entry = NVField {
                        key: fields[i].key.clone(),
                        value: fields[i].value.clone(),
                    };
                    out.push(entry);
                    i = i + 1;
                }
                proof {
                    lemma_entries_of_elementwise(out@, fields@);
                }
                NVValue::Object(out)
            },
        }
    }
}

/// Two value sequences whose elements model alike model alike as wholes.
pub proof fn lemma_vals_of_elementwise(a: Seq<NVValue>, b: Seq<NVValue>)
    requires
        a.len() == b.len(),
        forall|k: int| 0 <= k < a.len() ==> #[trigger] val_of(a[k]) == val_of(b[k]),
    ensures
        vals_of(a) == vals_of(b),
{
    lemma_vals_of_len(a);
    lemma_vals_of_len(b);
    assert(vals_of(a) =~= vals_of(b));
}

/// Two entry sequences whose entries model alike model alike as wholes.
pub proof fn lemma_entries_of_elementwise(a: Seq<NVField>, b: Seq<NVField>)
    requires
        a.len() == b.len(),
        forall|k: int| 0 <= k < a.len() ==> #[trigger] a[k].key@ == b[k].key@,
        forall|k: int| 0 <= k < a.len() ==> #[trigger] val_of(a[k].value) == val_of(b[k].value),
    ensures
        entries_of(a) == entries_of(b),
{
    lemma_entries_of_len(a);
    lemma_entries_of_len(b);
    assert(entries_of(a) =~= entries_of(b));
}

impl Clone for NVField {
    fn clone(&self) -> (r: NVField)
        ensures
            r.key@ == self.key@,
            r.value@ == self.value@,
    {
        NVField { key: self.key.clone(), value: self.value.clone() }
    }
}

/// First value bound to a key in an entry sequence, if any.
pub open spec fn lookup_entry(fields: Seq<(Seq<char>, Val)>, key: Seq<char>) -> Option<Val>
    decreases fields.len(),
{
    if fields.len() == 0 {
        None
    } else if fields[0].0 == key {
        Some(fields[0].1)
    } else {
        lookup_entry(fields.drop_first(), key)
    }
}

/// Entry sequence after binding a key: the first entry with that key is
/// replaced; a missing key is appended at the end.
pub open spec fn set_entry(
    fields: Seq<(Seq<char>, Val)>,
    key: Seq<char>,
    value: Val,
) -> Seq<(Seq<char>, Val)>
    decreases fields.len(),
{
    if fields.len() == 0 {
        seq![(key, value)]
    } else if fields[0].0 == key {
        seq![(key, value)] + fields.drop_first()
    } else {
        seq![fields[0]] + set_entry(fields.drop_first(), key, value)
    }
}

/// Model of a stored document.
pub struct DocModel {
    pub id: Seq<char>,
    pub collection: Seq<char>,
    pub data: Seq<(Seq<char>, Val)>,
    pub created_at: i64,
    pub updated_at: i64,
    pub deleted: bool,
}

/// A document record in the database.
#[derive(Debug)]
pub struct NVDocument {
    /// Unique identifier.
    pub id: String,
    /// Collection name.
    pub collection: String,
    /// Document data: a field map kept as a key/value list.
    pub data: Vec<NVField>,
    /// Creation timestamp, milliseconds since the Unix epoch.
    pub created_at: i64,
    /// Last update timestamp, milliseconds since the Unix epoch.
    pub updated_at: i64,
    /// Soft delete flag.
    pub deleted: bool,
}

impl View for NVDocument {
    type V = DocModel;

    open spec fn view(&self) -> DocModel {
        DocModel {
            id: self.id@,
            collection: self.collection@,
            data: entries_of(self.data@),
            created_at: self.created_at,
            updated_at: self.updated_at,
            deleted: self.deleted,
        }
    }
}

impl Clone for NVDocument {
    fn clone(&self) -> (r: NVDocument)
        ensures
            r@ == self@,
    {
        let mut data: Vec<NVField> = Vec::new();
        let mut i: usize = 0;
        while i < self.data.len()
            invariant
                i <= self.data.len(),
                data@.len() == i,
                forall|k: int| 0 <= k < i ==> #[trigger] data@[k].key@ == self.data@[k].key@,
                forall|k: int|
                    0 <= k < i ==> #[trigger] val_of(data@[k].value) == val_of(
                        self.data@[k].value,
                    ),
            decreases self.data.len() - i,
        {
            data.push(self.data[i].clone());
            i = i + 1;
        }
        proof {
            lemma_entries_of_elementwise(data@, self.data@);
        }
        NVDocument {
            id: self.id.clone(),
            collection: self.collection.clone(),
            data,
            created_at: self.created_at,
            updated_at: self.updated_at,
            deleted: self.deleted,
        }
    }
}

/// Relies on chrono::Utc::now and timestamp_millis: the current wall-clock
/// time as milliseconds since the Unix epoch.  Nothing is assumed of the
/// value: callers hold for every reading.
#[verifier::external_body]
fn now_millis() -> i64 {
    chrono::Utc::now().timestamp_millis()
}

impl NVDocument {
    /// Fresh live document; both timestamps are set to the present reading
    /// of the clock.
    pub fn new(id: String, collection: String, data: Vec<NVField>) -> (r: NVDocument)
        ensures
            r@.id == id@,
            r@.collection == collection@,
            r@.data == entries_of(data@),
            r@.created_at == r@.updated_at,
            !r@.deleted,
    {
        let now: i64 = now_millis();
        NVDocument { id, collection, data, created_at: now, updated_at: now, deleted: false }
    }

    /// First value bound to the field, if the field is present.
    pub fn get(&self, field: &str) -> (r: Option<&NVValue>)
        ensures
            match r {
                Some(v) => lookup_entry(self@.data, field@) == Some(v@),
                None => lookup_entry(self@.data, field@) is None,
            },
    {
        let wanted: String = field.to_owned();
        let mut i: usize = 0;
        while i < self.data.len()
            invariant
                i <= self.data.len(),
                wanted@ == field@,
                forall|k: int| 0 <= k < i ==> self.data@[k].key@ != field@,
            decreases self.data.len() - i,
        {
            if self.data[i].key == wanted {
                proof {
                    lemma_lookup_entry_hit(self.data@, field@, i as int);
                }
                return Some(&self.data[i].value);
            }
            i = i + 1;
        }
        proof {
            lemma_lookup_entry_miss(self.data@, field@);
        }
        None
    }

    /// Binds the field to the value and bumps the update timestamp.
    pub fn set(&mut self, field: String, value: NVValue)
        ensures
            final(self)@.data == set_entry(old(self)@.data, field@, value@),
            final(self)@.id == old(self)@.id,
            final(self)@.collection == old(self)@.collection,
            final(self)@.created_at == old(self)@.created_at,
            final(self)@.deleted == old(self)@.deleted,
    {
        match find_key(&self.data, &field) {
            Some(i) => {
                proof {
                    lemma_set_entry_hit(self.data@, field@, val_of(value), i as int);
                }
                let ghost before = self.data@;
                self.data.set(i, NVField { key: field, value });
                proof {
                    lemma_entries_of_update(before, self.data@, i as int);
                }
            },
            None => {
                proof {
                    lemma_set_entry_append(self.data@, field@, val_of(value));
                }
                let ghost before = self.data@;
                self.data.push(NVField { key: field, value });
                proof {
                    lemma_entries_of_push(before, self.data@);
                }
            },
        }
        self.updated_at = now_millis();
    }
}

/// Index of the first entry bound to the key, if any.
fn find_key(data: &Vec<NVField>, field: &String) -> (r: Option<usize>)
    ensures
        match r {
            Some(i) => i < data@.len() && data@[i as int].key@ == field@ && forall|k: int|
                0 <= k < i ==> data@[k].key@ != field@,
            None => forall|k: int| 0 <= k < data@.len() ==> data@[k].key@ != field@,
        },
{
    let mut i: usize = 0;
    while i < data.len()
        invariant
            i <= data.len(),
            forall|k: int| 0 <= k < i ==> data@[k].key@ != field@,
        decreases data.len() - i,
    {
        if data[i].key == *field {
            return Some(i);
        }
        i = i + 1;
    }
    None
}

/// A linear search that stops at index `i` finds the binding that the
/// entry-map lookup names.
proof fn lemma_lookup_entry_hit(fields: Seq<NVField>, key: Seq<char>, i: int)
    requires
        0 <= i < fields.len(),
        fields[i].key@ == key,
        forall|k: int| 0 <= k < i ==> fields[k].key@ != key,
    ensures
        lookup_entry(entries_of(fields), key) == Some(val_of(fields[i].value)),
    decreases i,
{
    lemma_entries_of_len(fields);
    if i == 0 {
    } else {
        lemma_entries_of_len(fields.drop_first());
        assert(entries_of(fields).drop_first() =~= entries_of(fields.drop_first()));
        lemma_lookup_entry_hit(fields.drop_first(), key, i - 1);
    }
}

/// A linear search that finds no binding matches the entry-map lookup.
proof fn lemma_lookup_entry_miss(fields: Seq<NVField>, key: Seq<char>)
    requires
        forall|k: int| 0 <= k < fields.len() ==> fields[k].key@ != key,
    ensures
        lookup_entry(entries_of(fields), key) is None,
    decreases fields.len(),
{
    lemma_entries_of_len(fields);
    if fields.len() > 0 {
        lemma_entries_of_len(fields.drop_first());
        assert(entries_of(fields).drop_first() =~= entries_of(fields.drop_first()));
        lemma_lookup_entry_miss(fields.drop_first(), key);
    }
}

/// Binding a key present at index `i` (and nowhere earlier) rewrites exactly
/// that entry.
proof fn lemma_set_entry_hit(fields: Seq<NVField>, key: Seq<char>, value: Val, i: int)
    requires
        0 <= i < fields.len(),
        fields[i].key@ == key,
        forall|k: int| 0 <= k < i ==> fields[k].key@ != key,
    ensures
        set_entry(entries_of(fields), key, value) == entries_of(fields).update(i, (key, value)),
    decreases i,
{
    lemma_entries_of_len(fields);
    if i == 0 {
        assert(set_entry(entries_of(fields), key, value) =~= entries_of(fields).update(
            0,
            (key, value),
        ));
    } else {
        lemma_entries_of_len(fields.drop_first());
        assert(entries_of(fields).drop_first() =~= entries_of(fields.drop_first()));
        lemma_set_entry_hit(fields.drop_first(), key, value, i - 1);
        assert(set_entry(entries_of(fields), key, value) =~= entries_of(fields).update(
            i,
            (key, value),
        ));
    }
}

/// Binding an absent key appends the new entry.
proof fn lemma_set_entry_append(fields: Seq<NVField>, key: Seq<char>, value: Val)
    requires
        forall|k: int| 0 <= k < fields.len() ==> fields[k].key@ != key,
    ensures
        set_entry(entries_of(fields), key, value) == entries_of(fields).push((key, value)),
    decreases fields.len(),
{
    lemma_entries_of_len(fields);
    if fields.len() == 0 {
        assert(set_entry(entries_of(fields), key, value) =~= entries_of(fields).push(
            (key, value),
        ));
    } else {
        lemma_entries_of_len(fields.drop_first());
        assert(entries_of(fields).drop_first() =~= entries_of(fields.drop_first()));
        lemma_set_entry_append(fields.drop_first(), key, value);
        assert(set_entry(entries_of(fields), key, value) =~= entries_of(fields).push(
            (key, value),
        ));
    }
}

/// Updating one element updates the one modelled entry.
proof fn lemma_entries_of_update(before: Seq<NVField>, after: Seq<NVField>, i: int)
    requires
        0 <= i < before.len(),
        after == before.update(i, after[i]),
    ensures
        entries_of(after) == entries_of(before).update(i, (after[i].key@, val_of(after[i].value))),
{
    lemma_entries_of_len(before);
    lemma_entries_of_len(after);
    assert(entries_of(after) =~= entries_of(before).update(
        i,
        (after[i].key@, val_of(after[i].value)),
    ));
}

/// Pushing one element appends the one modelled entry.
proof fn lemma_entries_of_push(before: Seq<NVField>, after: Seq<NVField>)
    requires
        after == before.push(after.last()),
    ensures
        entries_of(after) == entries_of(before).push((after.last().key@, val_of(after.last().value))),
{
    lemma_entries_of_len(before);
    lemma_entries_of_len(after);
    assert(entries_of(after) =~= entries_of(before).push(
        (after.last().key@, val_of(after.last().value)),
    ));
}

/// Query operators.
#[derive(Debug, Clone, Copy, PartialEq, Eq, Structural)]
pub enum QueryOperator {
    Equals,
    NotEquals,
    GreaterThan,
    GreaterThanOrEqual,
    LessThan,
    LessThanOrEqual,
    Contains,
    StartsWith,
    EndsWith,
    In,
    NotIn,
}

/// Logical operators for combining conditions.
#[derive(Debug, Clone, Copy, PartialEq, Eq, Structural)]
pub enum LogicalOperator {
    And,
    Or,
}

/// Model of a query condition.
pub struct CondModel {
    pub field: Seq<char>,
    pub operator: QueryOperator,
    pub value: Val,
}

/// Query condition.
#[derive(Debug)]
pub struct QueryCondition {
    pub field: String,
    pub operator: QueryOperator,
    pub value: NVValue,
}

impl View for QueryCondition {
    type V = CondModel;

    open spec fn view(&self) -> CondModel {
        CondModel { field: self.field@, operator: self.operator, value: self.value@ }
    }
}

impl Clone for QueryCondition {
    fn clone(&self) -> (r: QueryCondition)
        ensures
            r@ == self@,
    {
        QueryCondition {
            field: self.field.clone(),
            operator: self.operator,
            value: self.value.clone(),
        }
    }
}

/// Model of a query.
pub struct QueryModel {
    pub collection: Seq<char>,
    pub conditions: Seq<CondModel>,
    pub logical_operators: Seq<LogicalOperator>,
    pub order_by: Option<Seq<char>>,
    pub order_desc: bool,
    pub limit: Option<usize>,
    pub skip: Option<usize>,
}

/// Query structure.
#[derive(Debug)]
pub struct NVQuery {
    pub collection: String,
    pub conditions: Vec<QueryCondition>,
    pub logical_operators: Vec<LogicalOperator>,
    pub order_by: Option<String>,
    pub order_desc: bool,
    pub limit: Option<usize>,
    pub skip: Option<usize>,
}

impl View for NVQuery {
    type V = QueryModel;

    open spec fn view(&self) -> QueryModel {
        QueryModel {
            collection: self.collection@,
            conditions: Seq::new(self.conditions@.len(), |i: int| self.conditions@[i]@),
            logical_operators: self.logical_operators@,
            order_by: match self.order_by {
                Some(s) => Some(s@),
                None => None,
            },
            order_desc: self.order_desc,
            limit: self.limit,
            skip: self.skip,
        }
    }
}

impl NVQuery {
    /// Query over one collection with no conditions, order, skip or limit.
    pub fn new(collection: String) -> (r: NVQuery)
        ensures
            r@.collection == collection@,
            r@.conditions.len() == 0,
            r@.logical_operators.len() == 0,
            r@.order_by is None,
            !r@.order_desc,
            r@.limit is None,
            r@.skip is None,
    {
        NVQuery {
            collection,
            conditions: Vec::new(),
            logical_operators: Vec::new(),
            order_by: None,
            order_desc: false,
            limit: None,
            skip: None,
        }
    }

    /// Adds one condition, preceded by its connector when it is not the first.
    pub fn add_condition(
        &mut self,
        field: String,
        operator: QueryOperator,
        value: NVValue,
        logical_op: Option<LogicalOperator>,
    )
        ensures
            final(self)@.conditions == old(self)@.conditions.push(
                CondModel { field: field@, operator, value: value@ },
            ),
            final(self)@.logical_operators == match logical_op {
                Some(op) => old(self)@.logical_operators.push(op),
                None => old(self)@.logical_operators,
            },
            final(self)@.collection == old(self)@.collection,
            final(self)@.order_by == old(self)@.order_by,
            final(self)@.order_desc == old(self)@.order_desc,
            final(self)@.limit == old(self)@.limit,
            final(self)@.skip == old(self)@.skip,
    {
        if let Some(op) = logical_op {
            self.logical_operators.push(op);
        }
        self.conditions.push(QueryCondition { field, operator, value });
        proof {
            assert(Seq::new(self.conditions@.len(), |i: int| self.conditions@[i]@) =~= Seq::new(
                old(self).conditions@.len(),
                |i: int| old(self).conditions@[i]@,
            ).push(self.conditions@.last()@));
        }
    }
}

/// Update operation: one field set to one replacement value.
#[derive(Debug)]
pub struct UpdateOperation {
    pub field: String,
    pub value: NVValue,
}

impl Clone for UpdateOperation {
    fn clone(&self) -> (r: UpdateOperation)
        ensures
            r.field@ == self.field@,
            r.value@ == self.value@,
    {
        UpdateOperation { field: self.field.clone(), value: self.value.clone() }
    }
}

/// Database configuration.  The compression, cache, encryption and
/// compaction knobs are accepted at construction and not consulted by the
/// engine.
#[derive(Debug, Clone)]
pub struct DatabaseConfig {
    /// Path to the database directory.
    pub path: String,
    /// Enable compression (unused).
    pub enable_compression: bool,
    /// Maximum cache size in MB (unused).
    pub cache_size_mb: usize,
    /// Enable encryption (unused).
    pub enable_encryption: bool,
    /// Auto-compact threshold as a ratio of dead data, in thousandths
    /// (unused).
    pub auto_compact_threshold: u32,
}

impl Default for DatabaseConfig {
    fn default() -> (r: DatabaseConfig)
        ensures
            r.path@ == "./neural_vault_data"@,
            !r.enable_compression,
            r.cache_size_mb == 100,
            !r.enable_encryption,
            r.auto_compact_threshold == 300,
    {
        DatabaseConfig {
            path: "./neural_vault_data".to_owned(),
            enable_compression: false,
            cache_size_mb: 100,
            enable_encryption: false,
            auto_compact_threshold: 300,
        }
    }
}

} // verus!
