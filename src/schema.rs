//! The schema derived from a header row, and the filtered views of a row's
//! standard and customer extension fields.
use vstd::prelude::*;
use crate::outside::record_fields;

verus! {

/// Header names that start with this marker name customer extension columns.
pub const CUSTOMER_EXTENSION_PREFIX: &'static str = "CUEX_";

/// The number of characters in the extension marker.
pub const PREFIX_LEN: usize = 5;

/// The extension marker as characters.
pub open spec fn marker() -> Seq<char> {
    seq!['C', 'U', 'E', 'X', '_']
}

/// Whether a header name designates a customer extension column.
pub open spec fn is_extension_name(name: Seq<char>) -> bool {
    marker().len() <= name.len() && name.subrange(0, marker().len() as int) == marker()
}

/// The indices below `n` whose header name is (`ext`) or is not (`!ext`) an
/// extension name, in increasing order.
pub open spec fn indices_where(header: Seq<Seq<char>>, ext: bool, n: int) -> Seq<usize>
    decreases n,
{
    if n <= 0 {
        Seq::empty()
    } else {
        let earlier = indices_where(header, ext, n - 1);
        if is_extension_name(header[n - 1]) == ext {
            earlier.push((n - 1) as usize)
        } else {
            earlier
        }
    }
}

/// The (tag, value) pairs for the columns listed in `idx`, in that order: the
/// tag is the header name without its first `skip` characters, and a column
/// whose value is empty, or missing from a short row, gives no pair.
pub open spec fn pairs_of(
    header: Seq<Seq<char>>,
    values: Seq<Seq<char>>,
    idx: Seq<usize>,
    skip: int,
) -> Seq<(Seq<char>, Seq<char>)>
    decreases idx.len(),
{
    if idx.len() == 0 {
        Seq::empty()
    } else {
        let earlier = pairs_of(header, values, idx.drop_last(), skip);
        let i = idx.last() as int;
        if i < values.len() && values[i].len() > 0 {
            earlier.push((header[i].skip(skip), values[i]))
        } else {
            earlier
        }
    }
}

/// Whether column `i` of a row with the given values holds a non-empty value.
pub open spec fn present_in(values: Seq<Seq<char>>) -> spec_fn(usize) -> bool {
    |i: usize| (i as int) < values.len() && values[i as int].len() > 0
}

/// The (tag, value) pair of column `i`: its name without the first `skip`
/// characters, and its value.
pub open spec fn pair_at(header: Seq<Seq<char>>, values: Seq<Seq<char>>, skip: int) -> spec_fn(usize) -> (Seq<char>, Seq<char>) {
    |i: usize| (header[i as int].skip(skip), values[i as int])
}

/// The character view of a sequence of borrowed string pairs.
pub open spec fn pair_view(p: Seq<(&str, &str)>) -> Seq<(Seq<char>, Seq<char>)> {
    p.map_values(|q: (&str, &str)| (q.0@, q.1@))
}

/// Tells whether `name` starts with the extension marker.
pub fn has_extension_prefix(name: &str) -> (r: bool)
    ensures
        r == is_extension_name(name@),
{
    proof {
        reveal_strlit("CUEX_");
    }
    let n = name.unicode_len();
    if n < PREFIX_LEN {
        return false;
    }
    let mut j: usize = 0;
    while j < PREFIX_LEN
        invariant
            j <= PREFIX_LEN,
            PREFIX_LEN <= name@.len(),
            CUSTOMER_EXTENSION_PREFIX@ == marker(),
            forall|k: int| 0 <= k < j ==> name@[k] == marker()[k],
        decreases PREFIX_LEN - j,
    {
        if name.get_char(j) != CUSTOMER_EXTENSION_PREFIX.get_char(j) {
            return false;
        }
        j = j + 1;
    }
    assert(name@.subrange(0, marker().len() as int) =~= marker());
    true
}


/// A header row with its columns split into standard and extension columns.
pub struct Schema {
    /// Indices of standard columns within the header.
    standard: Vec<usize>,
    /// Indices of extension columns within the header: those whose name
    /// starts with the extension marker.
    extensions: Vec<usize>,
    /// The header row: the names of the columns.
    header: csv::StringRecord,
}

/// One data row, bound to the schema that describes it. The values are
/// overwritten by each read.
pub struct Record<'s> {
    pub schema: &'s Schema,
    /// The row most recently read.
    pub values: csv::StringRecord,
}

impl<'s> Record<'s> {
    /// A record bound to `schema`, with no values yet.
    pub fn new(schema: &'s Schema) -> (r: Record<'s>)
        ensures
            r.schema == schema,
            record_fields(r.values) == Seq::<Seq<char>>::empty(),
    {
        Record { schema, values: csv::StringRecord::new() }
    }
}

/// Why no schema or row could be had.
#[derive(Debug)]
pub enum SourceError {
    /// The reader failed, or rejected the input.
    Csv(csv::Error),
    /// The input holds no header row.
    MissingHeader,
}

impl Schema {
    /// The column names of the header, in order.
    pub closed spec fn header_names(&self) -> Seq<Seq<char>> {
        record_fields(self.header)
    }

    /// The indices of the standard columns, in stored order.
    pub closed spec fn standard_indices(&self) -> Seq<usize> {
        self.standard@
    }

    /// The indices of the extension columns, in stored order.
    pub closed spec fn extension_indices(&self) -> Seq<usize> {
        self.extensions@
    }

    /// Each column is listed as standard or as extension according to its
    /// name, in header order.
    pub open spec fn wf(&self) -> bool {
        let h = self.header_names();
        &&& h.len() <= usize::MAX
        &&& self.standard_indices() == indices_where(h, false, h.len() as int)
        &&& self.extension_indices() == indices_where(h, true, h.len() as int)
    }

    /// The standard (tag, value) pairs of a row with the given values.
    pub open spec fn standard_pairs(&self, values: Seq<Seq<char>>) -> Seq<(Seq<char>, Seq<char>)> {
        pairs_of(self.header_names(), values, self.standard_indices(), 0)
    }

    /// The extension (tag, value) pairs of a row with the given values, each
    /// tag without the marker.
    pub open spec fn extension_pairs(&self, values: Seq<Seq<char>>) -> Seq<(Seq<char>, Seq<char>)> {
        pairs_of(self.header_names(), values, self.extension_indices(), marker().len() as int)
    }

    /// Builds the schema of a header row; an empty header row is refused.
    pub fn from_header(header: csv::StringRecord) -> (r: Result<Schema, SourceError>)
        ensures
            record_fields(header).len() == 0 <==> r is Err,
            r is Err ==> r->Err_0 is MissingHeader,
            r is Ok ==> r->Ok_0.wf() && r->Ok_0.header_names() == record_fields(header),
    {
        let n = header.len();
        if n == 0 {
            return Err(SourceError::MissingHeader);
        }
        let mut standard: Vec<usize> = Vec::new();
        let mut extensions: Vec<usize> = Vec::new();
        let mut i: usize = 0;
        while i < n
            invariant
                i <= n,
                n == record_fields(header).len(),
                standard@ == indices_where(record_fields(header), false, i as int),
                extensions@ == indices_where(record_fields(header), true, i as int),
            decreases n - i,
        {
            let name = header.get(i).unwrap();
            if has_extension_prefix(name) {
                extensions.push(i);
            } else {
                standard.push(i);
            }
            i = i + 1;
        }
        Ok(Schema { standard, extensions, header })
    }

    /// The standard (tag, value) pairs of the row `values`, in header order,
    /// without those whose value is empty.
    pub fn standard<'a>(&'a self, values: &'a csv::StringRecord) -> (r: Vec<(&'a str, &'a str)>)
        requires
            self.wf(),
        ensures
            pair_view(r@) == self.standard_pairs(record_fields(*values)),
    {
        proof {
            let h = self.header_names();
            lemma_indices_bounded(h, false, h.len() as int);
        }
        self.field_it(&self.standard, 0, values)
    }

    /// The extension (tag, value) pairs of the row `values`, in header order,
    /// each tag without the marker, without those whose value is empty.
    pub fn extensions<'a>(&'a self, values: &'a csv::StringRecord) -> (r: Vec<(&'a str, &'a str)>)
        requires
            self.wf(),
        ensures
            pair_view(r@) == self.extension_pairs(record_fields(*values)),
    {
        proof {
            let h = self.header_names();
            lemma_indices_bounded(h, true, h.len() as int);
            assert(marker().len() == PREFIX_LEN);
        }
        self.field_it(&self.extensions, PREFIX_LEN, values)
    }

    /// The (tag, value) pairs of the columns listed in `fields`, in that
    /// order: each tag is the header name without its first `skip`
    /// characters, and columns whose value is empty or missing are left out.
    fn field_it<'a>(&'a self, fields: &Vec<usize>, skip: usize, values: &'a csv::StringRecord) -> (r: Vec<(&'a str, &'a str)>)
        requires
            forall|j: int| 0 <= j < fields@.len() ==> (fields@[j] as int) < self.header_names().len(),
            forall|j: int| 0 <= j < fields@.len() ==> (skip as int) <= self.header_names()[fields@[j] as int].len(),
        ensures
            pair_view(r@) == pairs_of(self.header_names(), record_fields(*values), fields@, skip as int),
    {
        let ghost h = self.header_names();
        let ghost v = record_fields(*values);
        let mut out: Vec<(&'a str, &'a str)> = Vec::new();
        let mut k: usize = 0;
        while k < fields.len()
            invariant
                k <= fields@.len(),
                h == record_fields(self.header),
                v == record_fields(*values),
                forall|j: int| 0 <= j < fields@.len() ==> (fields@[j] as int) < h.len(),
                forall|j: int| 0 <= j < fields@.len() ==> (skip as int) <= h[fields@[j] as int].len(),
                pair_view(out@) == pairs_of(h, v, fields@.subrange(0, k as int), skip as int),
            decreases fields@.len() - k,
        {
            let index = fields[k];
            assert(fields@.subrange(0, k + 1).drop_last() =~= fields@.subrange(0, k as int));
            match values.get(index) {
                Some(value) => {
                    if value.unicode_len() > 0 {
                        let name = self.header.get(index).unwrap();
                        let tag = name.substring_char(skip, name.unicode_len());
                        out.push((tag, value));
                        assert(pair_view(out@) =~= pair_view(out@.drop_last()).push((tag@, value@)));
                    }
                },
                None => {},
            }
            k = k + 1;
        }
        assert(fields@.subrange(0, fields@.len() as int) =~= fields@);
        out
    }
}

/// Every index that `indices_where` lists is below `n`, and its name has
/// the requested kind.
pub proof fn lemma_indices_bounded(header: Seq<Seq<char>>, ext: bool, n: int)
    requires
        n <= header.len(),
        header.len() <= usize::MAX,
    ensures
        forall|j: int| 0 <= j < indices_where(header, ext, n).len() ==> {
            let i = #[trigger] indices_where(header, ext, n)[j] as int;
            &&& 0 <= i < n
            &&& is_extension_name(header[i]) == ext
        },
    decreases n,
{
    if n > 0 {
        lemma_indices_bounded(header, ext, n - 1);
        let earlier = indices_where(header, ext, n - 1);
        if is_extension_name(header[n - 1]) == ext {
            let all = earlier.push((n - 1) as usize);
            assert(all[earlier.len() as int] == (n - 1) as usize);
            assert forall|j: int| 0 <= j < earlier.len() implies all[j] == earlier[j] by {}
        }
    }
}

} // verus!
