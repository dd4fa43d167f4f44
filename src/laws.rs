//! Properties that hold of every schema and every row.
use vstd::prelude::*;
use crate::schema::{
    indices_where, is_extension_name, lemma_indices_bounded, marker, pair_at, pairs_of, present_in, Schema,
};

verus! {

/// An index is listed by `indices_where` exactly when it is below `n` and its
/// name has the requested kind.
proof fn lemma_indices_membership(header: Seq<Seq<char>>, ext: bool, n: int)
    requires
        0 <= n <= header.len(),
        header.len() <= usize::MAX,
    ensures
        forall|k: usize| #[trigger] indices_where(header, ext, n).contains(k)
            <==> ((k as int) < n && is_extension_name(header[k as int]) == ext),
    decreases n,
{
    lemma_indices_bounded(header, ext, n);
    if n > 0 {
        lemma_indices_membership(header, ext, n - 1);
        let earlier = indices_where(header, ext, n - 1);
        let all = indices_where(header, ext, n);
        assert forall|k: usize| #[trigger] all.contains(k)
            <==> ((k as int) < n && is_extension_name(header[k as int]) == ext) by {
            if is_extension_name(header[n - 1]) == ext {
                assert(all == earlier.push((n - 1) as usize));
                if earlier.contains(k) {
                    let j = choose|j: int| 0 <= j < earlier.len() && earlier[j] == k;
                    assert(all[j] == k);
                }
                if k as int == n - 1 {
                    assert(all[earlier.len() as int] == k);
                }
                if all.contains(k) && (k as int) < n - 1 {
                    let j = choose|j: int| 0 <= j < all.len() && all[j] == k;
                    assert(j < earlier.len());
                    assert(earlier[j] == k);
                }
            }
        }
    }
}

/// The indices listed by `indices_where` are strictly increasing.
proof fn lemma_indices_increasing(header: Seq<Seq<char>>, ext: bool, n: int)
    requires
        0 <= n <= header.len(),
        header.len() <= usize::MAX,
    ensures
        forall|a: int, b: int| 0 <= a < b < indices_where(header, ext, n).len()
            ==> indices_where(header, ext, n)[a] < indices_where(header, ext, n)[b],
    decreases n,
{
    if n > 0 {
        lemma_indices_increasing(header, ext, n - 1);
        lemma_indices_bounded(header, ext, n - 1);
        let earlier = indices_where(header, ext, n - 1);
        if is_extension_name(header[n - 1]) == ext {
            let all = earlier.push((n - 1) as usize);
            assert forall|a: int, b: int| 0 <= a < b < all.len() implies all[a] < all[b] by {
                assert(all[a] == earlier[a]);
                if b < earlier.len() {
                    assert(all[b] == earlier[b]);
                }
            }
        }
    }
}

/// Each pair comes from a listed column whose value is present and non-empty.
proof fn lemma_pairs_sound(header: Seq<Seq<char>>, values: Seq<Seq<char>>, idx: Seq<usize>, skip: int)
    ensures
        forall|k: int| 0 <= k < pairs_of(header, values, idx, skip).len() ==> exists|j: int| {
            &&& 0 <= j < idx.len()
            &&& (idx[j] as int) < values.len()
            &&& values[idx[j] as int].len() > 0
            &&& #[trigger] pairs_of(header, values, idx, skip)[k] == (header[idx[j] as int].skip(skip), values[idx[j] as int])
        },
    decreases idx.len(),
{
    if idx.len() > 0 {
        let rest = idx.drop_last();
        lemma_pairs_sound(header, values, rest, skip);
        let earlier = pairs_of(header, values, rest, skip);
        let all = pairs_of(header, values, idx, skip);
        let i = idx.last() as int;
        assert forall|k: int| 0 <= k < all.len() implies exists|j: int| {
            &&& 0 <= j < idx.len()
            &&& (idx[j] as int) < values.len()
            &&& values[idx[j] as int].len() > 0
            &&& #[trigger] all[k] == (header[idx[j] as int].skip(skip), values[idx[j] as int])
        } by {
            if k < earlier.len() {
                assert(all[k] == earlier[k]);
                let j = choose|j: int| {
                    &&& 0 <= j < rest.len()
                    &&& (rest[j] as int) < values.len()
                    &&& values[rest[j] as int].len() > 0
                    &&& #[trigger] earlier[k] == (header[rest[j] as int].skip(skip), values[rest[j] as int])
                };
                assert(rest[j] == idx[j]);
            } else {
                assert(all[k] == (header[i].skip(skip), values[i]));
                assert(idx[idx.len() - 1] as int == i);
            }
        }
    }
}

/// Every listed column whose value is present and non-empty gives a pair.
proof fn lemma_pairs_complete(header: Seq<Seq<char>>, values: Seq<Seq<char>>, idx: Seq<usize>, skip: int)
    ensures
        forall|j: int| 0 <= j < idx.len() && (idx[j] as int) < values.len() && values[idx[j] as int].len() > 0
            ==> pairs_of(header, values, idx, skip).contains((header[#[trigger] idx[j] as int].skip(skip), values[idx[j] as int])),
    decreases idx.len(),
{
    if idx.len() > 0 {
        let rest = idx.drop_last();
        lemma_pairs_complete(header, values, rest, skip);
        let earlier = pairs_of(header, values, rest, skip);
        let all = pairs_of(header, values, idx, skip);
        assert forall|j: int| 0 <= j < idx.len() && (idx[j] as int) < values.len() && values[idx[j] as int].len() > 0
            implies all.contains((header[#[trigger] idx[j] as int].skip(skip), values[idx[j] as int])) by {
            let p = (header[idx[j] as int].skip(skip), values[idx[j] as int]);
            if j < rest.len() {
                assert(rest[j] == idx[j]);
                assert(earlier.contains(p));
                let m = choose|m: int| 0 <= m < earlier.len() && earlier[m] == p;
                assert(all[m] == p);
            } else {
                assert(all[earlier.len() as int] == p);
            }
        }
    }
}

/// Every column of the header is either standard or an extension, never both:
/// together the two lists hold exactly the indices of the header.
pub proof fn lemma_partition_complete(schema: &Schema)
    requires
        schema.wf(),
    ensures
        schema.standard_indices().to_set() + schema.extension_indices().to_set()
            == Set::new(|k: usize| (k as int) < schema.header_names().len()),
        schema.standard_indices().to_set().disjoint(schema.extension_indices().to_set()),
{
    let h = schema.header_names();
    lemma_indices_membership(h, false, h.len() as int);
    lemma_indices_membership(h, true, h.len() as int);
    assert(schema.standard_indices().to_set() + schema.extension_indices().to_set()
        =~= Set::new(|k: usize| (k as int) < h.len()));
}

/// Within each list the indices follow the header's order, strictly.
pub proof fn lemma_partition_ordered(schema: &Schema)
    requires
        schema.wf(),
    ensures
        forall|a: int, b: int| 0 <= a < b < schema.standard_indices().len()
            ==> schema.standard_indices()[a] < schema.standard_indices()[b],
        forall|a: int, b: int| 0 <= a < b < schema.extension_indices().len()
            ==> schema.extension_indices()[a] < schema.extension_indices()[b],
{
    let h = schema.header_names();
    lemma_indices_increasing(h, false, h.len() as int);
    lemma_indices_increasing(h, true, h.len() as int);
}

/// Every extension tag is the name of an extension column with exactly the
/// marker removed from its front, paired with that column's value.
pub proof fn lemma_extension_tags_strip_marker(schema: &Schema, values: Seq<Seq<char>>)
    requires
        schema.wf(),
    ensures
        forall|k: int| 0 <= k < schema.extension_pairs(values).len() ==> exists|i: int| {
            &&& 0 <= i < schema.header_names().len()
            &&& schema.extension_indices().contains(i as usize)
            &&& schema.header_names()[i] == marker() + (#[trigger] schema.extension_pairs(values)[k]).0
            &&& schema.extension_pairs(values)[k].1 == values[i]
        },
{
    let h = schema.header_names();
    let idx = schema.extension_indices();
    let p = schema.extension_pairs(values);
    lemma_pairs_sound(h, values, idx, marker().len() as int);
    lemma_indices_bounded(h, true, h.len() as int);
    assert forall|k: int| 0 <= k < p.len() implies exists|i: int| {
        &&& 0 <= i < h.len()
        &&& idx.contains(i as usize)
        &&& h[i] == marker() + (#[trigger] p[k]).0
        &&& p[k].1 == values[i]
    } by {
        let j = choose|j: int| {
            &&& 0 <= j < idx.len()
            &&& (idx[j] as int) < values.len()
            &&& values[idx[j] as int].len() > 0
            &&& #[trigger] p[k] == (h[idx[j] as int].skip(marker().len() as int), values[idx[j] as int])
        };
        let i = idx[j] as int;
        assert(is_extension_name(h[i]));
        assert(h[i] =~= marker() + h[i].skip(marker().len() as int));
        assert(idx.contains(i as usize));
    }
}

/// No pair carries an empty value, and every column whose value is present
/// and non-empty gives its pair.
pub proof fn lemma_empty_values_filtered(schema: &Schema, values: Seq<Seq<char>>)
    requires
        schema.wf(),
    ensures
        forall|k: int| 0 <= k < schema.standard_pairs(values).len()
            ==> (#[trigger] schema.standard_pairs(values)[k]).1.len() > 0,
        forall|k: int| 0 <= k < schema.extension_pairs(values).len()
            ==> (#[trigger] schema.extension_pairs(values)[k]).1.len() > 0,
        forall|i: usize| schema.standard_indices().contains(i) && (i as int) < values.len() && values[i as int].len() > 0
            ==> schema.standard_pairs(values).contains((schema.header_names()[i as int], values[i as int])),
        forall|i: usize| schema.extension_indices().contains(i) && (i as int) < values.len() && values[i as int].len() > 0
            ==> schema.extension_pairs(values).contains((schema.header_names()[i as int].skip(marker().len() as int), values[i as int])),
{
    let h = schema.header_names();
    let std_idx = schema.standard_indices();
    let ext_idx = schema.extension_indices();
    lemma_pairs_sound(h, values, std_idx, 0);
    lemma_pairs_sound(h, values, ext_idx, marker().len() as int);
    lemma_pairs_complete(h, values, std_idx, 0);
    lemma_pairs_complete(h, values, ext_idx, marker().len() as int);
    assert forall|k: int| 0 <= k < schema.standard_pairs(values).len()
        implies (#[trigger] schema.standard_pairs(values)[k]).1.len() > 0 by {
        let p = schema.standard_pairs(values);
        let j = choose|j: int| {
            &&& 0 <= j < std_idx.len()
            &&& (std_idx[j] as int) < values.len()
            &&& values[std_idx[j] as int].len() > 0
            &&& #[trigger] p[k] == (h[std_idx[j] as int].skip(0), values[std_idx[j] as int])
        };
    }
    assert forall|k: int| 0 <= k < schema.extension_pairs(values).len()
        implies (#[trigger] schema.extension_pairs(values)[k]).1.len() > 0 by {
        let p = schema.extension_pairs(values);
        let j = choose|j: int| {
            &&& 0 <= j < ext_idx.len()
            &&& (ext_idx[j] as int) < values.len()
            &&& values[ext_idx[j] as int].len() > 0
            &&& #[trigger] p[k] == (h[ext_idx[j] as int].skip(marker().len() as int), values[ext_idx[j] as int])
        };
    }
    assert forall|i: usize| std_idx.contains(i) && (i as int) < values.len() && values[i as int].len() > 0
        implies schema.standard_pairs(values).contains((h[i as int], values[i as int])) by {
        let j = choose|j: int| 0 <= j < std_idx.len() && std_idx[j] == i;
        assert(h[std_idx[j] as int].skip(0) =~= h[i as int]);
    }
    assert forall|i: usize| ext_idx.contains(i) && (i as int) < values.len() && values[i as int].len() > 0
        implies schema.extension_pairs(values).contains((h[i as int].skip(marker().len() as int), values[i as int])) by {
        let j = choose|j: int| 0 <= j < ext_idx.len() && ext_idx[j] == i;
    }
}


/// The pairs of a list of columns are its columns with a non-empty value,
/// kept in order and each mapped to its pair; there are never more pairs
/// than listed columns.
pub proof fn lemma_pairs_filter_map(header: Seq<Seq<char>>, values: Seq<Seq<char>>, idx: Seq<usize>, skip: int)
    ensures
        pairs_of(header, values, idx, skip)
            == idx.filter(present_in(values)).map_values(pair_at(header, values, skip)),
        pairs_of(header, values, idx, skip).len() <= idx.len(),
    decreases idx.len(),
{
    reveal(Seq::filter);
    idx.lemma_filter_len(present_in(values));
    if idx.len() > 0 {
        let rest = idx.drop_last();
        lemma_pairs_filter_map(header, values, rest, skip);
        let sub = rest.filter(present_in(values));
        if present_in(values)(idx.last()) {
            assert(sub.push(idx.last()).map_values(pair_at(header, values, skip))
                =~= sub.map_values(pair_at(header, values, skip)).push(pair_at(header, values, skip)(idx.last())));
        }
    }
}

/// The pairs of two lists of columns joined are the pairs of the first
/// followed by the pairs of the second.
pub proof fn lemma_pairs_concat(header: Seq<Seq<char>>, values: Seq<Seq<char>>, a: Seq<usize>, b: Seq<usize>, skip: int)
    ensures
        pairs_of(header, values, a + b, skip) == pairs_of(header, values, a, skip) + pairs_of(header, values, b, skip),
{
    lemma_pairs_filter_map(header, values, a, skip);
    lemma_pairs_filter_map(header, values, b, skip);
    lemma_pairs_filter_map(header, values, a + b, skip);
    Seq::filter_distributes_over_add(a, b, present_in(values));
    let fa = a.filter(present_in(values));
    let fb = b.filter(present_in(values));
    assert((fa + fb).map_values(pair_at(header, values, skip))
        =~= fa.map_values(pair_at(header, values, skip)) + fb.map_values(pair_at(header, values, skip)));
}

/// Without skipped characters every tag is the unchanged name of a listed
/// column, paired with that column's value.
pub proof fn lemma_unskipped_tags(header: Seq<Seq<char>>, values: Seq<Seq<char>>, idx: Seq<usize>)
    ensures
        forall|k: int| 0 <= k < pairs_of(header, values, idx, 0).len() ==> exists|j: int| {
            &&& 0 <= j < idx.len()
            &&& #[trigger] pairs_of(header, values, idx, 0)[k] == (header[idx[j] as int], values[idx[j] as int])
        },
{
    let p = pairs_of(header, values, idx, 0);
    lemma_pairs_sound(header, values, idx, 0);
    assert forall|k: int| 0 <= k < p.len() implies exists|j: int| {
        &&& 0 <= j < idx.len()
        &&& #[trigger] p[k] == (header[idx[j] as int], values[idx[j] as int])
    } by {
        let j = choose|j: int| {
            &&& 0 <= j < idx.len()
            &&& (idx[j] as int) < values.len()
            &&& values[idx[j] as int].len() > 0
            &&& #[trigger] p[k] == (header[idx[j] as int].skip(0), values[idx[j] as int])
        };
        assert(header[idx[j] as int].skip(0) =~= header[idx[j] as int]);
    }
}

/// Filtering a strictly increasing list keeps it strictly increasing and
/// adds nothing to it.
proof fn lemma_filter_increasing(s: Seq<usize>, p: spec_fn(usize) -> bool)
    requires
        forall|a: int, b: int| 0 <= a < b < s.len() ==> s[a] < s[b],
    ensures
        forall|a: int, b: int| 0 <= a < b < s.filter(p).len() ==> s.filter(p)[a] < s.filter(p)[b],
    decreases s.len(),
{
    reveal(Seq::filter);
    if s.len() > 0 {
        let rest = s.drop_last();
        lemma_filter_increasing(rest, p);
        let sub = rest.filter(p);
        if p(s.last()) {
            let all = sub.push(s.last());
            assert forall|a: int, b: int| 0 <= a < b < all.len() implies all[a] < all[b] by {
                assert(all[a] == sub[a]);
                if b < sub.len() {
                    assert(all[b] == sub[b]);
                } else {
                    assert(sub.contains(sub[a]));
                    rest.lemma_filter_contains_rev(p, sub[a]);
                    let m = choose|m: int| 0 <= m < rest.len() && rest[m] == sub[a];
                    assert(rest[m] == s[m]);
                }
            }
        }
    }
}

/// For each list, the columns with a non-empty value come out once each, in
/// header order: the pairs are those columns, in strictly increasing order,
/// each mapped to its pair, and a column is among them exactly when it is in
/// the list and its value is non-empty.
pub proof fn lemma_pairs_once_in_order(schema: &Schema, values: Seq<Seq<char>>)
    requires
        schema.wf(),
    ensures
        schema.standard_pairs(values) == schema.standard_indices().filter(present_in(values))
            .map_values(pair_at(schema.header_names(), values, 0)),
        schema.extension_pairs(values) == schema.extension_indices().filter(present_in(values))
            .map_values(pair_at(schema.header_names(), values, marker().len() as int)),
        forall|a: int, b: int| 0 <= a < b < schema.standard_indices().filter(present_in(values)).len()
            ==> schema.standard_indices().filter(present_in(values))[a]
                < schema.standard_indices().filter(present_in(values))[b],
        forall|a: int, b: int| 0 <= a < b < schema.extension_indices().filter(present_in(values)).len()
            ==> schema.extension_indices().filter(present_in(values))[a]
                < schema.extension_indices().filter(present_in(values))[b],
        forall|i: usize| #[trigger] schema.standard_indices().filter(present_in(values)).contains(i)
            <==> schema.standard_indices().contains(i) && present_in(values)(i),
        forall|i: usize| #[trigger] schema.extension_indices().filter(present_in(values)).contains(i)
            <==> schema.extension_indices().contains(i) && present_in(values)(i),
{
    broadcast use vstd::seq_lib::group_filter_ensures;
    let h = schema.header_names();
    let s = schema.standard_indices();
    let e = schema.extension_indices();
    lemma_pairs_filter_map(h, values, s, 0);
    lemma_pairs_filter_map(h, values, e, marker().len() as int);
    lemma_partition_ordered(schema);
    lemma_filter_increasing(s, present_in(values));
    lemma_filter_increasing(e, present_in(values));
    assert forall|i: usize| #[trigger] s.filter(present_in(values)).contains(i)
        <==> s.contains(i) && present_in(values)(i) by {
        if s.filter(present_in(values)).contains(i) {
            s.lemma_filter_contains_rev(present_in(values), i);
            let k = choose|k: int| 0 <= k < s.filter(present_in(values)).len() && s.filter(present_in(values))[k] == i;
        }
        if s.contains(i) && present_in(values)(i) {
            let k = choose|k: int| 0 <= k < s.len() && s[k] == i;
        }
    }
    assert forall|i: usize| #[trigger] e.filter(present_in(values)).contains(i)
        <==> e.contains(i) && present_in(values)(i) by {
        if e.filter(present_in(values)).contains(i) {
            e.lemma_filter_contains_rev(present_in(values), i);
            let k = choose|k: int| 0 <= k < e.filter(present_in(values)).len() && e.filter(present_in(values))[k] == i;
        }
        if e.contains(i) && present_in(values)(i) {
            let k = choose|k: int| 0 <= k < e.len() && e[k] == i;
        }
    }
}

} // verus!
