//! Limits on what a multipart stream may hold.
use vstd::prelude::*;
use crate::matcher::bytes_eq;

verus! {

/// A size limit for the field of one name.
#[derive(Clone, Debug)]
pub struct FieldLimit {
    pub name: Vec<u8>,
    pub limit: u64,
}

/// Byte budgets: for the whole stream, for each field, and for named fields.
#[derive(Clone, Debug)]
pub struct SizeLimit {
    pub whole_stream: Option<u64>,
    pub per_field: Option<u64>,
    /// Overrides of `per_field` by name; a later entry wins over an earlier one.
    pub field_overrides: Vec<FieldLimit>,
}

/// The limit of the field named `name`: the last override for that name, else
/// the default per-field limit.
pub open spec fn limit_for(overrides: Seq<FieldLimit>, per_field: Option<u64>, name: Seq<u8>) -> Option<u64>
    decreases overrides.len(),
{
    if overrides.len() == 0 {
        per_field
    } else if overrides.last().name@ == name {
        Some(overrides.last().limit)
    } else {
        limit_for(overrides.drop_last(), per_field, name)
    }
}

/// `count` bytes go over `limit`.
pub open spec fn exceeds(limit: Option<u64>, count: int) -> bool {
    match limit {
        Some(l) => count > l,
        None => false,
    }
}

impl SizeLimit {
    /// No limit at all.
    pub fn new() -> (r: SizeLimit)
        ensures
            r.whole_stream is None,
            r.per_field is None,
            r.field_overrides@.len() == 0,
    {
        SizeLimit { whole_stream: None, per_field: None, field_overrides: Vec::new() }
    }

    /// Sets the limit of the whole stream's field bytes.
    pub fn whole_stream(self, limit: u64) -> (r: SizeLimit)
        ensures
            r.whole_stream == Some(limit),
            r.per_field == self.per_field,
            r.field_overrides@ == self.field_overrides@,
    {
        SizeLimit { whole_stream: Some(limit), ..self }
    }

    /// Sets the default limit of each field.
    pub fn per_field(self, limit: u64) -> (r: SizeLimit)
        ensures
            r.whole_stream == self.whole_stream,
            r.per_field == Some(limit),
            r.field_overrides@ == self.field_overrides@,
    {
        SizeLimit { per_field: Some(limit), ..self }
    }

    /// Sets the limit of the field named `name`.
    pub fn for_field(self, name: Vec<u8>, limit: u64) -> (r: SizeLimit)
        ensures
            r.whole_stream == self.whole_stream,
            r.per_field == self.per_field,
            r.field_overrides@.len() == self.field_overrides@.len() + 1,
            r.field_overrides@.drop_last() == self.field_overrides@,
            r.field_overrides@.last().name@ == name@,
            r.field_overrides@.last().limit == limit,
            forall|n: Seq<u8>|
                limit_for(r.field_overrides@, r.per_field, n) == if n == name@ {
                    Some(limit)
                } else {
                    limit_for(self.field_overrides@, self.per_field, n)
                },
    {
        let mut s = self;
        s.field_overrides.push(FieldLimit { name, limit });
        assert(s.field_overrides@.drop_last() =~= self.field_overrides@);
        s
    }

    /// The limit of the field named `name`.
    pub fn limit_of(&self, name: &[u8]) -> (r: Option<u64>)
        ensures
            r == limit_for(self.field_overrides@, self.per_field, name@),
    {
        let mut i: usize = self.field_overrides.len();
        assert(self.field_overrides@.subrange(0, i as int) =~= self.field_overrides@);
        while i > 0
            invariant
                i <= self.field_overrides@.len(),
                limit_for(self.field_overrides@, self.per_field, name@) == limit_for(
                    self.field_overrides@.subrange(0, i as int),
                    self.per_field,
                    name@,
                ),
            decreases i,
        {
            let ghost pre = self.field_overrides@.subrange(0, i as int);
            assert(pre.drop_last() =~= self.field_overrides@.subrange(0, i - 1));
            if bytes_eq(self.field_overrides[i - 1].name.as_slice(), name) {
                return Some(self.field_overrides[i - 1].limit);
            }
            i -= 1;
        }
        assert(self.field_overrides@.subrange(0, 0) =~= Seq::<FieldLimit>::empty());
        self.per_field
    }
}

/// What a multipart stream may hold: which field names, and how many bytes.
#[derive(Clone, Debug)]
pub struct Constraints {
    /// Where present, the only field names accepted.
    pub allowed_fields: Option<Vec<Vec<u8>>>,
    pub size_limit: SizeLimit,
}

impl Constraints {
    /// No restriction at all.
    pub fn new() -> (r: Constraints)
        ensures
            r.allowed_fields is None,
            r.size_limit.whole_stream is None,
            r.size_limit.per_field is None,
            r.size_limit.field_overrides@.len() == 0,
    {
        Constraints { allowed_fields: None, size_limit: SizeLimit::new() }
    }

    /// Accepts the fields of these names only.
    pub fn allowed_fields(self, fields: Vec<Vec<u8>>) -> (r: Constraints)
        ensures
            r.allowed_fields == Some(fields),
            r.size_limit == self.size_limit,
    {
        Constraints { allowed_fields: Some(fields), ..self }
    }

    /// Sets the size limits.
    pub fn size_limit(self, size_limit: SizeLimit) -> (r: Constraints)
        ensures
            r.allowed_fields == self.allowed_fields,
            r.size_limit == size_limit,
    {
        Constraints { size_limit, ..self }
    }

    /// A field named `name` is accepted.
    pub open spec fn allows(&self, name: Seq<u8>) -> bool {
        match self.allowed_fields {
            None => true,
            Some(v) => exists|i: int| 0 <= i < v@.len() && #[trigger] v@[i]@ == name,
        }
    }

    /// The limit of the field named `name`, if it has one.
    pub open spec fn field_limit(&self, name: Seq<u8>) -> Option<u64> {
        limit_for(self.size_limit.field_overrides@, self.size_limit.per_field, name)
    }

    /// Whether a field named `name` is accepted.
    pub fn is_field_allowed(&self, name: &[u8]) -> (r: bool)
        ensures
            r == self.allows(name@),
    {
        match &self.allowed_fields {
            None => true,
            Some(v) => {
                let mut i: usize = 0;
                while i < v.len()
                    invariant
                        self.allowed_fields == Some(*v),
                        i <= v@.len(),
                        forall|t: int| 0 <= t < i ==> v@[t]@ != name@,
                    decreases v@.len() - i,
                {
                    if bytes_eq(v[i].as_slice(), name) {
                        assert(self.allowed_fields->0@[i as int]@ == name@);
                        return true;
                    }
                    i += 1;
                }
                false
            },
        }
    }
}

} // verus!
