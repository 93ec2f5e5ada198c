//! Statistics of one column chunk: how many elements are null, and the least
//! and greatest of the others.

use crate::limits::{key_max_value, key_min_value};
use crate::truncate::{
    BINARY_PREFIX_LENGTH, bytes_less, lemma_lex_lt_irreflexive, lemma_lex_lt_transitive,
    lemma_lex_total, lemma_truncated_max_is_upper_bound, lemma_truncated_min_is_lower_bound,
    lex_le, truncate_max, truncate_min, truncated_max, truncated_min,
};
use crate::value::{
    Array, DataType, F32_SIGN, F64_SIGN, Kind, Number, Scalar, ScalarView, Values,
    lemma_normal_form, opt_scalar,
};
use vstd::prelude::*;

verus! {

/// Statistics for a single column chunk.
#[derive(Clone, Debug, PartialEq, Eq)]
pub struct StatisticsRow {
    /// Number of nulls in this column chunk.
    pub null_count: u32,
    /// Minimum value in this column chunk, if any.
    pub min_value: Option<Scalar>,
    /// Maximum value in this column chunk, if any.
    pub max_value: Option<Scalar>,
}

/// Why statistics could not be computed or assembled.
#[derive(Clone, Copy, Debug, PartialEq, Eq, Structural)]
pub enum StatisticsError {
    /// No statistics are computed for elements of this type.
    UnsupportedType(DataType),
    /// A field has statistics for `found` chunks where the collector has the
    /// row counts of `expected` chunks.
    Misaligned { field_id: i32, expected: usize, found: usize },
}

/// How many of the first `j` elements are null.
pub open spec fn nulls_before(elements: Seq<Option<ScalarView>>, j: int) -> nat
    decreases j,
{
    if j <= 0 {
        0
    } else {
        nulls_before(elements, j - 1) + if elements[j - 1] is None {
            1nat
        } else {
            0nat
        }
    }
}

/// How many elements of the first `n` arrays are null.
pub open spec fn nulls_in_first(arrays: Seq<Array>, n: int) -> nat
    decreases n,
{
    if n <= 0 {
        0
    } else {
        nulls_in_first(arrays, n - 1) + nulls_before(
            arrays[n - 1].elements(),
            arrays[n - 1].elements().len() as int,
        )
    }
}

/// How many elements of all the arrays are null.
pub open spec fn total_nulls(arrays: Seq<Array>) -> nat {
    nulls_in_first(arrays, arrays.len() as int)
}

/// The element takes part in the bounds: every text or binary value does,
/// and every number but the floating-point not-a-number values.
pub open spec fn takes_part(e: ScalarView) -> bool {
    match e {
        ScalarView::Number(n) => n.comparable(),
        ScalarView::Bytes(_) => true,
    }
}

/// `a` is `b` or comes before it: numbers by rank, text and binary values in
/// the lexicographic order of their bytes.
pub open spec fn precedes(a: ScalarView, b: ScalarView) -> bool {
    match (a, b) {
        (ScalarView::Number(x), ScalarView::Number(y)) => x.rank() <= y.rank(),
        (ScalarView::Bytes(x), ScalarView::Bytes(y)) => lex_le(x, y),
        _ => false,
    }
}

/// `a` and `b` stand in the order asked for: `a` at or before `b`, or with
/// `greatest` set, at or after it.
pub open spec fn in_order(greatest: bool, a: ScalarView, b: ScalarView) -> bool {
    if greatest {
        precedes(b, a)
    } else {
        precedes(a, b)
    }
}

/// Element `q` of array `p` exists and comes before element `j` of array `i`
/// where the arrays are read one after the other.
pub open spec fn read_before(arrays: Seq<Array>, i: int, j: int, p: int, q: int) -> bool {
    &&& 0 <= p < arrays.len()
    &&& 0 <= q < arrays[p].elements().len()
    &&& (p < i || (p == i && q < j))
}

/// `best` is the bound of the elements read before element `j` of array `i`:
/// absent if none of them takes part, else one of them that is in order with
/// every one that takes part.
pub open spec fn bound_so_far(
    arrays: Seq<Array>,
    i: int,
    j: int,
    best: Option<ScalarView>,
    greatest: bool,
) -> bool {
    match best {
        None => forall|p: int, q: int|
            read_before(arrays, i, j, p, q) ==> match #[trigger] arrays[p].elements()[q] {
                Some(o) => !takes_part(o),
                None => true,
            },
        Some(e) => {
            &&& takes_part(e)
            &&& exists|p: int, q: int|
                read_before(arrays, i, j, p, q) && #[trigger] arrays[p].elements()[q] == Some(e)
            &&& forall|p: int, q: int|
                read_before(arrays, i, j, p, q) ==> match #[trigger] arrays[p].elements()[q] {
                    Some(o) => takes_part(o) ==> in_order(greatest, e, o),
                    None => true,
                }
        },
    }
}

/// No element of the arrays takes part in the bounds: each is null or not a
/// number.
pub open spec fn none_takes_part(arrays: Seq<Array>) -> bool {
    bound_so_far(arrays, arrays.len() as int, 0, None, false)
}

/// `e` is an element of the arrays that takes part in the bounds and is at or
/// before every other that does.
pub open spec fn is_least(arrays: Seq<Array>, e: ScalarView) -> bool {
    bound_so_far(arrays, arrays.len() as int, 0, Some(e), false)
}

/// `e` is an element of the arrays that takes part in the bounds and is at or
/// after every other that does.
pub open spec fn is_greatest(arrays: Seq<Array>, e: ScalarView) -> bool {
    bound_so_far(arrays, arrays.len() as int, 0, Some(e), true)
}

/// The minimum reported for a chunk whose least element is `e`: a number in
/// its normal form, of a text or binary value what truncation keeps.
pub open spec fn reported_min(e: ScalarView, text: bool) -> Option<ScalarView> {
    match e {
        ScalarView::Number(n) => Some(ScalarView::Number(n.normal_form())),
        ScalarView::Bytes(b) => Some(ScalarView::Bytes(truncated_min(b, text))),
    }
}

/// The maximum reported for a chunk whose greatest element is `e`: a number
/// in its normal form, of a text or binary value what truncation keeps,
/// which may be nothing.
pub open spec fn reported_max(e: ScalarView, text: bool) -> Option<ScalarView> {
    match e {
        ScalarView::Number(n) => Some(ScalarView::Number(n.normal_form())),
        ScalarView::Bytes(b) => match truncated_max(b, text) {
            Some(s) => Some(ScalarView::Bytes(s)),
            None => None,
        },
    }
}

/// `row` holds the statistics of the chunk made of `arrays`.
pub open spec fn describes(arrays: Seq<Array>, row: StatisticsRow) -> bool {
    let text = arrays[0].data_type.kind_of() == Kind::Text;
    &&& row.null_count == total_nulls(arrays)
    &&& if none_takes_part(arrays) {
        row.min_value is None && row.max_value is None
    } else {
        &&& exists|e: ScalarView| #[trigger]
            is_least(arrays, e) && opt_scalar(row.min_value) == reported_min(e, text)
        &&& exists|e: ScalarView| #[trigger]
            is_greatest(arrays, e) && opt_scalar(row.max_value) == reported_max(e, text)
    }
}

/// The nulls counted up to any element are among the nulls of all arrays.
pub proof fn lemma_nulls_bounded(arrays: Seq<Array>, i: int, j: int)
    requires
        0 <= i < arrays.len(),
        0 <= j <= arrays[i].elements().len(),
    ensures
        nulls_in_first(arrays, i) + nulls_before(arrays[i].elements(), j) <= total_nulls(arrays),
{
    lemma_nulls_before_monotone(arrays[i].elements(), j, arrays[i].elements().len() as int);
    lemma_nulls_in_first_monotone(arrays, i + 1, arrays.len() as int);
}

proof fn lemma_nulls_before_monotone(elements: Seq<Option<ScalarView>>, j: int, k: int)
    requires
        0 <= j <= k,
    ensures
        nulls_before(elements, j) <= nulls_before(elements, k),
    decreases k,
{
    if j < k {
        lemma_nulls_before_monotone(elements, j, k - 1);
    }
}

proof fn lemma_nulls_in_first_monotone(arrays: Seq<Array>, i: int, n: int)
    requires
        0 <= i <= n,
    ensures
        nulls_in_first(arrays, i) <= nulls_in_first(arrays, n),
    decreases n,
{
    if i < n {
        lemma_nulls_in_first_monotone(arrays, i, n - 1);
    }
}

/// The order of elements is transitive.
pub proof fn lemma_precedes_transitive(a: ScalarView, b: ScalarView, c: ScalarView)
    requires
        precedes(a, b),
        precedes(b, c),
    ensures
        precedes(a, c),
{
    match (a, b, c) {
        (ScalarView::Bytes(x), ScalarView::Bytes(y), ScalarView::Bytes(z)) => {
            if x != y && y != z {
                lemma_lex_lt_transitive(x, y, z);
            }
        },
        _ => {},
    }
}

/// Two elements that are each at or before the other are equal, up to the
/// floating-point zeros: two numbers have one rank, two byte strings are the
/// same.
pub proof fn lemma_precedes_antisymmetric(a: ScalarView, b: ScalarView)
    requires
        precedes(a, b),
        precedes(b, a),
    ensures
        match (a, b) {
            (ScalarView::Number(x), ScalarView::Number(y)) => x.rank() == y.rank(),
            (ScalarView::Bytes(x), ScalarView::Bytes(y)) => x == y,
            _ => false,
        },
{
    match (a, b) {
        (ScalarView::Bytes(x), ScalarView::Bytes(y)) => {
            if x != y {
                lemma_lex_lt_transitive(x, y, x);
                lemma_lex_lt_irreflexive(x);
            }
        },
        _ => {},
    }
}

/// Reading one more element keeps the bound, or replaces it by that element
/// where the element takes part and is in order with the bound so far.
proof fn lemma_read_element(
    arrays: Seq<Array>,
    i: int,
    j: int,
    best: Option<ScalarView>,
    next: Option<ScalarView>,
    greatest: bool,
)
    requires
        0 <= i < arrays.len(),
        0 <= j < arrays[i].elements().len(),
        bound_so_far(arrays, i, j, best, greatest),
        match arrays[i].elements()[j] {
            None => next == best,
            Some(o) => if !takes_part(o) {
                next == best
            } else {
                match best {
                    None => next == Some(o),
                    Some(e) => (next == best && in_order(greatest, e, o)) || (next == Some(o)
                        && in_order(greatest, o, e)),
                }
            },
        },
    ensures
        bound_so_far(arrays, i, j + 1, next, greatest),
{
    let here = arrays[i].elements()[j];
    match next {
        None => {},
        Some(n) => {
            if next == best {
                let (p0, q0) = choose|p: int, q: int|
                    read_before(arrays, i, j, p, q) && #[trigger] arrays[p].elements()[q] == Some(
                        n,
                    );
                assert(read_before(arrays, i, j + 1, p0, q0));
            } else {
                assert(read_before(arrays, i, j + 1, i, j));
                assert(here == Some(n));
                assert(precedes(n, n));
            }
            assert forall|p: int, q: int| read_before(arrays, i, j + 1, p, q)
                implies match #[trigger] arrays[p].elements()[q] {
                Some(o) => takes_part(o) ==> in_order(greatest, n, o),
                None => true,
            } by {
                if p == i && q == j {
                } else {
                    assert(read_before(arrays, i, j, p, q));
                    match arrays[p].elements()[q] {
                        Some(o) => {
                            if takes_part(o) && next != best {
                                match best {
                                    Some(e) => {
                                        if greatest {
                                            lemma_precedes_transitive(o, e, n);
                                        } else {
                                            lemma_precedes_transitive(n, e, o);
                                        }
                                    },
                                    None => {},
                                }
                            }
                        },
                        None => {},
                    }
                }
            }
        },
    }
}

/// The bound of what was read does not change between the end of one array
/// and the start of the next.
proof fn lemma_next_array(arrays: Seq<Array>, i: int, best: Option<ScalarView>, greatest: bool)
    requires
        0 <= i < arrays.len(),
        bound_so_far(arrays, i, arrays[i].elements().len() as int, best, greatest),
    ensures
        bound_so_far(arrays, i + 1, 0, best, greatest),
{
    let n = arrays[i].elements().len() as int;
    assert forall|p: int, q: int|
        read_before(arrays, i + 1, 0, p, q) == read_before(arrays, i, n, p, q) by {}
    match best {
        None => {},
        Some(e) => {
            let (p0, q0) = choose|p: int, q: int|
                read_before(arrays, i, n, p, q) && #[trigger] arrays[p].elements()[q] == Some(e);
            assert(read_before(arrays, i + 1, 0, p0, q0));
        },
    }
}

/// An optional number as an optional element.
pub open spec fn number_view(n: Option<Number>) -> Option<ScalarView> {
    match n {
        Some(v) => Some(ScalarView::Number(v)),
        None => None,
    }
}

/// Every array holds numbers.
pub open spec fn all_numbers(arrays: Seq<Array>) -> bool {
    forall|i: int| 0 <= i < arrays.len() ==> (#[trigger] arrays[i]).values is Numbers
}

/// Every array holds text or binary values.
pub open spec fn all_bytes(arrays: Seq<Array>) -> bool {
    forall|i: int| 0 <= i < arrays.len() ==> (#[trigger] arrays[i]).values is Bytes
}

/// The bounds found over all arrays are the bounds of the chunk.
proof fn lemma_bounds_describe(
    arrays: Seq<Array>,
    row: StatisticsRow,
    least: Option<ScalarView>,
    greatest: Option<ScalarView>,
)
    requires
        arrays.len() > 0,
        row.null_count == total_nulls(arrays),
        bound_so_far(arrays, arrays.len() as int, 0, least, false),
        bound_so_far(arrays, arrays.len() as int, 0, greatest, true),
        match least {
            Some(e) => opt_scalar(row.min_value) == reported_min(
                e,
                arrays[0].data_type.kind_of() == Kind::Text,
            ),
            None => row.min_value is None,
        },
        match greatest {
            Some(e) => opt_scalar(row.max_value) == reported_max(
                e,
                arrays[0].data_type.kind_of() == Kind::Text,
            ),
            None => row.max_value is None,
        },
    ensures
        describes(arrays, row),
{
    let n = arrays.len() as int;
    match least {
        Some(e) => {
            let (p, q) = choose|p: int, q: int|
                read_before(arrays, n, 0, p, q) && #[trigger] arrays[p].elements()[q] == Some(e);
            assert(!none_takes_part(arrays));
            assert(is_least(arrays, e));
            assert(greatest is Some);
            assert(is_greatest(arrays, greatest->0));
        },
        None => {
            assert(none_takes_part(arrays));
            match greatest {
                Some(g) => {
                    let (p, q) = choose|p: int, q: int|
                        read_before(arrays, n, 0, p, q) && #[trigger] arrays[p].elements()[q]
                            == Some(g);
                },
                None => {},
            }
        },
    }
}

/// The statistics of a chunk of numbers: the count of its nulls, and the
/// least and greatest of the numbers that take part in comparisons, each in
/// its normal form. Both bounds are absent where no number takes part.
///
/// The running minimum starts at the greatest key and the running maximum at
/// the least, so that the first number that takes part replaces both.
pub fn max_min_null(arrays: &Vec<Array>) -> (row: StatisticsRow)
    requires
        arrays@.len() > 0,
        all_numbers(arrays@),
        total_nulls(arrays@) <= u32::MAX,
    ensures
        describes(arrays@, row),
{
    let mut min_key: i128 = key_max_value();
    let mut max_key: i128 = key_min_value();
    let mut min_value: Option<Number> = None;
    let mut max_value: Option<Number> = None;
    let mut null_count: u32 = 0;
    let mut i: usize = 0;
    while i < arrays.len()
        invariant
            i <= arrays@.len(),
            all_numbers(arrays@),
            total_nulls(arrays@) <= u32::MAX,
            null_count == nulls_in_first(arrays@, i as int),
            bound_so_far(arrays@, i as int, 0, number_view(min_value), false),
            bound_so_far(arrays@, i as int, 0, number_view(max_value), true),
            min_key == match min_value {
                Some(least) => least.rank(),
                None => i128::MAX as int,
            },
            max_key == match max_value {
                Some(greatest) => greatest.rank(),
                None => i128::MIN as int,
            },
        decreases arrays@.len() - i,
    {
        match &arrays[i].values {
            Values::Numbers(values) => {
                let ghost elements = arrays@[i as int].elements();
                let mut j: usize = 0;
                while j < values.len()
                    invariant
                        i < arrays@.len(),
                        j <= values@.len(),
                        arrays@[i as int].values == Values::Numbers(*values),
                        elements == arrays@[i as int].elements(),
                        elements.len() == values@.len(),
                        total_nulls(arrays@) <= u32::MAX,
                        null_count == nulls_in_first(arrays@, i as int) + nulls_before(
                            elements,
                            j as int,
                        ),
                        bound_so_far(arrays@, i as int, j as int, number_view(min_value), false),
                        bound_so_far(arrays@, i as int, j as int, number_view(max_value), true),
                        min_key == match min_value {
                            Some(least) => least.rank(),
                            None => i128::MAX as int,
                        },
                        max_key == match max_value {
                            Some(greatest) => greatest.rank(),
                            None => i128::MIN as int,
                        },
                    decreases values@.len() - j,
                {
                    let ghost old_min = number_view(min_value);
                    let ghost old_max = number_view(max_value);
                    proof {
                        lemma_nulls_bounded(arrays@, i as int, j as int + 1);
                    }
                    match values[j] {
                        None => {
                            null_count += 1;
                        },
                        Some(value) => {
                            assert(elements[j as int] == Some(ScalarView::Number(value)));
                            if value.is_comparable() {
                                let key = value.key();
                                if key >= max_key {
                                    max_key = key;
                                    max_value = Some(value);
                                }
                                if key <= min_key {
                                    min_key = key;
                                    min_value = Some(value);
                                }
                            }
                        },
                    }
                    proof {
                        lemma_read_element(
                            arrays@,
                            i as int,
                            j as int,
                            old_min,
                            number_view(min_value),
                            false,
                        );
                        lemma_read_element(
                            arrays@,
                            i as int,
                            j as int,
                            old_max,
                            number_view(max_value),
                            true,
                        );
                    }
                    j += 1;
                }
            },
            _ => {},
        }
        proof {
            lemma_next_array(arrays@, i as int, number_view(min_value), false);
            lemma_next_array(arrays@, i as int, number_view(max_value), true);
        }
        i += 1;
    }
    let row = StatisticsRow {
        null_count,
        min_value: match min_value {
            Some(n) => Some(Scalar::Number(n.normalized())),
            None => None,
        },
        max_value: match max_value {
            Some(n) => Some(Scalar::Number(n.normalized())),
            None => None,
        },
    };
    proof {
        lemma_bounds_describe(arrays@, row, number_view(min_value), number_view(max_value));
    }
    row
}

/// An optional byte string as an optional element.
pub open spec fn bytes_view(b: Option<&Vec<u8>>) -> Option<ScalarView> {
    match b {
        Some(v) => Some(ScalarView::Bytes(v@)),
        None => None,
    }
}

/// The statistics of a chunk of text or binary values: the count of its
/// nulls, and what truncation keeps of its least and of its greatest value
/// in the lexicographic order of their bytes. The values are text, cut at
/// character boundaries only, where the first array's type says so.
pub fn truncated_max_min_null(arrays: &Vec<Array>) -> (row: StatisticsRow)
    requires
        arrays@.len() > 0,
        all_bytes(arrays@),
        total_nulls(arrays@) <= u32::MAX,
    ensures
        describes(arrays@, row),
{
    let text = arrays[0].data_type.kind() == Kind::Text;
    let mut min_value: Option<&Vec<u8>> = None;
    let mut max_value: Option<&Vec<u8>> = None;
    let mut null_count: u32 = 0;
    let mut i: usize = 0;
    while i < arrays.len()
        invariant
            i <= arrays@.len(),
            all_bytes(arrays@),
            total_nulls(arrays@) <= u32::MAX,
            null_count == nulls_in_first(arrays@, i as int),
            bound_so_far(arrays@, i as int, 0, bytes_view(min_value), false),
            bound_so_far(arrays@, i as int, 0, bytes_view(max_value), true),
        decreases arrays@.len() - i,
    {
        match &arrays[i].values {
            Values::Bytes(values) => {
                let ghost elements = arrays@[i as int].elements();
                let mut j: usize = 0;
                while j < values.len()
                    invariant
                        i < arrays@.len(),
                        j <= values@.len(),
                        arrays@[i as int].values == Values::Bytes(*values),
                        elements == arrays@[i as int].elements(),
                        elements.len() == values@.len(),
                        total_nulls(arrays@) <= u32::MAX,
                        null_count == nulls_in_first(arrays@, i as int) + nulls_before(
                            elements,
                            j as int,
                        ),
                        bound_so_far(arrays@, i as int, j as int, bytes_view(min_value), false),
                        bound_so_far(arrays@, i as int, j as int, bytes_view(max_value), true),
                    decreases values@.len() - j,
                {
                    let ghost old_min = bytes_view(min_value);
                    let ghost old_max = bytes_view(max_value);
                    proof {
                        lemma_nulls_bounded(arrays@, i as int, j as int + 1);
                    }
                    match &values[j] {
                        None => {
                            null_count += 1;
                        },
                        Some(value) => {
                            assert(elements[j as int] == Some(ScalarView::Bytes(value@)));
                            let raise = match max_value {
                                Some(best) => {
                                    proof {
                                        lemma_lex_total(best@, value@);
                                    }
                                    bytes_less(best, value)
                                },
                                None => true,
                            };
                            if raise {
                                max_value = Some(value);
                            }
                            let lower = match min_value {
                                Some(best) => {
                                    proof {
                                        lemma_lex_total(best@, value@);
                                    }
                                    bytes_less(value, best)
                                },
                                None => true,
                            };
                            if lower {
                                min_value = Some(value);
                            }
                        },
                    }
                    proof {
                        lemma_read_element(
                            arrays@,
                            i as int,
                            j as int,
                            old_min,
                            bytes_view(min_value),
                            false,
                        );
                        lemma_read_element(
                            arrays@,
                            i as int,
                            j as int,
                            old_max,
                            bytes_view(max_value),
                            true,
                        );
                    }
                    j += 1;
                }
            },
            _ => {},
        }
        proof {
            lemma_next_array(arrays@, i as int, bytes_view(min_value), false);
            lemma_next_array(arrays@, i as int, bytes_view(max_value), true);
        }
        i += 1;
    }
    let row = StatisticsRow {
        null_count,
        min_value: match min_value {
            Some(value) => Some(Scalar::Bytes(truncate_min(value, text))),
            None => None,
        },
        max_value: match max_value {
            Some(value) => match truncate_max(value, text) {
                Some(bound) => Some(Scalar::Bytes(bound)),
                None => None,
            },
            None => None,
        },
    };
    proof {
        lemma_bounds_describe(arrays@, row, bytes_view(min_value), bytes_view(max_value));
    }
    row
}

/// The arrays of one chunk: at least one, each well formed, all of the type
/// of the first.
pub open spec fn one_chunk(arrays: Seq<Array>) -> bool {
    &&& arrays.len() > 0
    &&& forall|i: int|
        0 <= i < arrays.len() ==> (#[trigger] arrays[i]).wf() && arrays[i].data_type
            == arrays[0].data_type
}

/// Whether `arrays` are the arrays of one chunk.
pub fn is_one_chunk(arrays: &Vec<Array>) -> (ok: bool)
    ensures
        ok == one_chunk(arrays@),
{
    if arrays.len() == 0 {
        return false;
    }
    let mut i: usize = 0;
    while i < arrays.len()
        invariant
            i <= arrays@.len(),
            forall|k: int|
                0 <= k < i ==> (#[trigger] arrays@[k]).wf() && arrays@[k].data_type
                    == arrays@[0].data_type,
        decreases arrays@.len() - i,
    {
        if !arrays[i].is_wf() || arrays[i].data_type != arrays[0].data_type {
            return false;
        }
        i += 1;
    }
    true
}

/// How many elements of all the arrays are null, if a null count can
/// express it.
pub fn count_nulls(arrays: &Vec<Array>) -> (count: Option<u32>)
    ensures
        match count {
            Some(n) => n == total_nulls(arrays@),
            None => total_nulls(arrays@) > u32::MAX,
        },
{
    let mut count: u32 = 0;
    let mut i: usize = 0;
    while i < arrays.len()
        invariant
            i <= arrays@.len(),
            count == nulls_in_first(arrays@, i as int),
        decreases arrays@.len() - i,
    {
        let ghost elements = arrays@[i as int].elements();
        match &arrays[i].values {
            Values::Numbers(values) => {
                let mut j: usize = 0;
                while j < values.len()
                    invariant
                        i < arrays@.len(),
                        j <= values@.len(),
                        arrays@[i as int].values == Values::Numbers(*values),
                        elements == arrays@[i as int].elements(),
                        count == nulls_in_first(arrays@, i as int) + nulls_before(
                            elements,
                            j as int,
                        ),
                    decreases values@.len() - j,
                {
                    if values[j].is_none() {
                        if count == u32::MAX {
                            proof {
                                lemma_nulls_bounded(arrays@, i as int, j as int + 1);
                            }
                            return None;
                        }
                        count += 1;
                    }
                    j += 1;
                }
            },
            Values::Bytes(values) => {
                let mut j: usize = 0;
                while j < values.len()
                    invariant
                        i < arrays@.len(),
                        j <= values@.len(),
                        arrays@[i as int].values == Values::Bytes(*values),
                        elements == arrays@[i as int].elements(),
                        count == nulls_in_first(arrays@, i as int) + nulls_before(
                            elements,
                            j as int,
                        ),
                    decreases values@.len() - j,
                {
                    if values[j].is_none() {
                        if count == u32::MAX {
                            proof {
                                lemma_nulls_bounded(arrays@, i as int, j as int + 1);
                            }
                            return None;
                        }
                        count += 1;
                    }
                    j += 1;
                }
            },
            Values::Other => {},
        }
        i += 1;
    }
    Some(count)
}

/// The statistics of the chunk made of `arrays`, computed as the type of
/// their elements asks: numbers by rank, text and binary values in
/// lexicographic order and truncated. Of a dictionary-encoded array the
/// dictionary's values are read, never its keys. Fails for a type that has
/// no statistics.
pub fn collect_statistics(arrays: &Vec<Array>) -> (result: Result<StatisticsRow, StatisticsError>)
    requires
        one_chunk(arrays@),
        total_nulls(arrays@) <= u32::MAX,
    ensures
        match result {
            Ok(row) => {
                &&& arrays@[0].data_type.kind_of() != Kind::Unsupported
                &&& describes(arrays@, row)
                &&& arrays@[0].data_type.admits(opt_scalar(row.min_value))
                &&& arrays@[0].data_type.admits(opt_scalar(row.max_value))
            },
            Err(e) => arrays@[0].data_type.kind_of() == Kind::Unsupported && e
                == StatisticsError::UnsupportedType(arrays@[0].data_type),
        },
{
    let data_type = arrays[0].data_type;
    match data_type.kind() {
        Kind::Unsupported => Err(StatisticsError::UnsupportedType(data_type)),
        Kind::Text | Kind::Binary => {
            assert(all_bytes(arrays@)) by {
                assert forall|i: int| 0 <= i < arrays@.len()
                    implies (#[trigger] arrays@[i]).values is Bytes by {
                    assert(arrays@[i].wf());
                }
            }
            let row = truncated_max_min_null(arrays);
            proof {
                lemma_bounds_of_type(arrays@, row);
            }
            Ok(row)
        },
        _ => {
            assert(all_numbers(arrays@)) by {
                assert forall|i: int| 0 <= i < arrays@.len()
                    implies (#[trigger] arrays@[i]).values is Numbers by {
                    assert(arrays@[i].wf());
                }
            }
            let row = max_min_null(arrays);
            proof {
                lemma_bounds_of_type(arrays@, row);
            }
            Ok(row)
        },
    }
}

/// An element that takes part and stands in an array of a chunk is a value
/// of the chunk's type.
proof fn lemma_element_of_type(arrays: Seq<Array>, p: int, q: int)
    requires
        one_chunk(arrays),
        0 <= p < arrays.len(),
        0 <= q < arrays[p].elements().len(),
        arrays[p].elements()[q] is Some,
    ensures
        match arrays[p].elements()[q]->0 {
            ScalarView::Number(n) => arrays[0].data_type.holds(n) && arrays[0].data_type.holds(
                n.normal_form(),
            ),
            ScalarView::Bytes(_) => arrays[0].data_type.kind_of() == Kind::Text
                || arrays[0].data_type.kind_of() == Kind::Binary,
        },
{
    assert(arrays[p].wf());
    match arrays[p].values {
        Values::Numbers(v) => {
            assert(v@[q] is Some);
        },
        _ => {},
    }
}

/// The bounds of a chunk are values of the chunk's type.
pub proof fn lemma_bounds_of_type(arrays: Seq<Array>, row: StatisticsRow)
    requires
        one_chunk(arrays),
        describes(arrays, row),
    ensures
        arrays[0].data_type.admits(opt_scalar(row.min_value)),
        arrays[0].data_type.admits(opt_scalar(row.max_value)),
{
    let text = arrays[0].data_type.kind_of() == Kind::Text;
    let n = arrays.len() as int;
    if !none_takes_part(arrays) {
        let lo = choose|e: ScalarView| #[trigger]
            is_least(arrays, e) && opt_scalar(row.min_value) == reported_min(e, text);
        let (p, q) = choose|p: int, q: int|
            read_before(arrays, n, 0, p, q) && #[trigger] arrays[p].elements()[q] == Some(lo);
        lemma_element_of_type(arrays, p, q);
        let hi = choose|e: ScalarView| #[trigger]
            is_greatest(arrays, e) && opt_scalar(row.max_value) == reported_max(e, text);
        let (p2, q2) = choose|p: int, q: int|
            read_before(arrays, n, 0, p, q) && #[trigger] arrays[p].elements()[q] == Some(hi);
        lemma_element_of_type(arrays, p2, q2);
    }
}

/// Every number of a chunk that takes part in comparisons lies between the
/// reported minimum and the reported maximum.
pub proof fn lemma_bounds_enclose(arrays: Seq<Array>, row: StatisticsRow, i: int, j: int, n: Number)
    requires
        describes(arrays, row),
        0 <= i < arrays.len(),
        0 <= j < arrays[i].elements().len(),
        arrays[i].elements()[j] == Some(ScalarView::Number(n)),
        n.comparable(),
    ensures
        match (opt_scalar(row.min_value), opt_scalar(row.max_value)) {
            (Some(ScalarView::Number(lo)), Some(ScalarView::Number(hi))) => lo.rank() <= n.rank()
                <= hi.rank() && lo.comparable() && hi.comparable(),
            _ => false,
        },
{
    let text = arrays[0].data_type.kind_of() == Kind::Text;
    assert(read_before(arrays, arrays.len() as int, 0, i, j));
    assert(!none_takes_part(arrays));
    let lo = choose|e: ScalarView| #[trigger]
        is_least(arrays, e) && opt_scalar(row.min_value) == reported_min(e, text);
    let hi = choose|e: ScalarView| #[trigger]
        is_greatest(arrays, e) && opt_scalar(row.max_value) == reported_max(e, text);
    assert(in_order(false, lo, ScalarView::Number(n)));
    assert(in_order(true, hi, ScalarView::Number(n)));
    match (lo, hi) {
        (ScalarView::Number(a), ScalarView::Number(b)) => {
            lemma_normal_form(a, a);
            lemma_normal_form(b, b);
        },
        _ => {},
    }
}

/// Every text or binary value of a chunk lies between the reported minimum
/// and, where one is reported, the reported maximum, in the lexicographic
/// order of bytes.
pub proof fn lemma_truncated_bounds_enclose(
    arrays: Seq<Array>,
    row: StatisticsRow,
    i: int,
    j: int,
    value: Seq<u8>,
)
    requires
        describes(arrays, row),
        0 <= i < arrays.len(),
        0 <= j < arrays[i].elements().len(),
        arrays[i].elements()[j] == Some(ScalarView::Bytes(value)),
    ensures
        match opt_scalar(row.min_value) {
            Some(ScalarView::Bytes(lo)) => lex_le(lo, value),
            _ => false,
        },
        match opt_scalar(row.max_value) {
            Some(ScalarView::Bytes(hi)) => lex_le(value, hi),
            Some(ScalarView::Number(_)) => false,
            None => true,
        },
{
    let text = arrays[0].data_type.kind_of() == Kind::Text;
    assert(read_before(arrays, arrays.len() as int, 0, i, j));
    assert(!none_takes_part(arrays));
    let here = ScalarView::Bytes(value);
    let lo = choose|e: ScalarView| #[trigger]
        is_least(arrays, e) && opt_scalar(row.min_value) == reported_min(e, text);
    let hi = choose|e: ScalarView| #[trigger]
        is_greatest(arrays, e) && opt_scalar(row.max_value) == reported_max(e, text);
    assert(in_order(false, lo, here));
    assert(in_order(true, hi, here));
    match (lo, hi) {
        (ScalarView::Bytes(least), ScalarView::Bytes(greatest)) => {
            lemma_truncated_min_is_lower_bound(least, text);
            lemma_precedes_transitive(
                ScalarView::Bytes(truncated_min(least, text)),
                lo,
                here,
            );
            match truncated_max(greatest, text) {
                Some(bound) => {
                    if greatest.len() > BINARY_PREFIX_LENGTH {
                        lemma_truncated_max_is_upper_bound(greatest, text);
                    }
                    lemma_precedes_transitive(here, hi, ScalarView::Bytes(bound));
                },
                None => {},
            }
        },
        _ => {},
    }
}

/// The minimum of a chunk is absent exactly if every element is null or not
/// a number, and so is the maximum of a chunk of numbers.
pub proof fn lemma_bounds_absent(arrays: Seq<Array>, row: StatisticsRow)
    requires
        describes(arrays, row),
    ensures
        row.min_value is None <==> none_takes_part(arrays),
        all_numbers(arrays) ==> (row.max_value is None <==> none_takes_part(arrays)),
{
    let text = arrays[0].data_type.kind_of() == Kind::Text;
    let n = arrays.len() as int;
    if !none_takes_part(arrays) && all_numbers(arrays) {
        let hi = choose|e: ScalarView| #[trigger]
            is_greatest(arrays, e) && opt_scalar(row.max_value) == reported_max(e, text);
        let (p, q) = choose|p: int, q: int|
            read_before(arrays, n, 0, p, q) && #[trigger] arrays[p].elements()[q] == Some(hi);
        assert(arrays[p].values is Numbers);
    }
}

/// A reported bound is never negative zero: where the least number of a
/// floating-point chunk is a zero of either sign, the minimum is positive
/// zero, and likewise the maximum.
pub proof fn lemma_zero_is_positive(arrays: Seq<Array>, row: StatisticsRow)
    requires
        one_chunk(arrays),
        describes(arrays, row),
    ensures
        opt_scalar(row.min_value) != Some(ScalarView::Number(Number::Float32(F32_SIGN))),
        opt_scalar(row.min_value) != Some(ScalarView::Number(Number::Float64(F64_SIGN))),
        opt_scalar(row.max_value) != Some(ScalarView::Number(Number::Float32(F32_SIGN))),
        opt_scalar(row.max_value) != Some(ScalarView::Number(Number::Float64(F64_SIGN))),
        forall|e: ScalarView|
            #![trigger is_least(arrays, e)]
            is_least(arrays, e) && e is Number && e->Number_0.rank() == 0 ==> match e->Number_0 {
                Number::Float32(_) => opt_scalar(row.min_value) == Some(
                    ScalarView::Number(Number::Float32(0)),
                ),
                Number::Float64(_) => opt_scalar(row.min_value) == Some(
                    ScalarView::Number(Number::Float64(0)),
                ),
                _ => true,
            },
{
    let text = arrays[0].data_type.kind_of() == Kind::Text;
    let n = arrays.len() as int;
    assert forall|e: ScalarView|
        #![trigger is_least(arrays, e)]
        is_least(arrays, e) && e is Number && e->Number_0.rank() == 0 implies match e->Number_0 {
        Number::Float32(_) => opt_scalar(row.min_value) == Some(
            ScalarView::Number(Number::Float32(0)),
        ),
        Number::Float64(_) => opt_scalar(row.min_value) == Some(
            ScalarView::Number(Number::Float64(0)),
        ),
        _ => true,
    } by {
        let (p, q) = choose|p: int, q: int|
            read_before(arrays, n, 0, p, q) && #[trigger] arrays[p].elements()[q] == Some(e);
        assert(!none_takes_part(arrays));
        let lo = choose|l: ScalarView| #[trigger]
            is_least(arrays, l) && opt_scalar(row.min_value) == reported_min(l, text);
        let (p2, q2) = choose|p: int, q: int|
            read_before(arrays, n, 0, p, q) && #[trigger] arrays[p].elements()[q] == Some(lo);
        assert(in_order(false, lo, e));
        assert(in_order(false, e, lo));
        lemma_precedes_antisymmetric(e, lo);
        lemma_element_of_type(arrays, p, q);
        lemma_element_of_type(arrays, p2, q2);
        lemma_normal_form(e->Number_0, lo->Number_0);
    }
}

/// Only nulls are counted as nulls: a present element, a number that is not
/// a number among them, leaves the count as it is.
pub proof fn lemma_only_nulls_counted(elements: Seq<Option<ScalarView>>, j: int)
    requires
        0 <= j < elements.len(),
    ensures
        elements[j] is Some ==> nulls_before(elements, j + 1) == nulls_before(elements, j),
        elements[j] is None ==> nulls_before(elements, j + 1) == nulls_before(elements, j) + 1,
{
}

/// Two sets of arrays with the same elements at the same places.
pub open spec fn same_elements(a: Seq<Array>, b: Seq<Array>) -> bool {
    &&& a.len() == b.len()
    &&& forall|i: int| 0 <= i < a.len() ==> (#[trigger] a[i]).elements() == b[i].elements()
}

proof fn lemma_same_nulls(a: Seq<Array>, b: Seq<Array>, n: int)
    requires
        same_elements(a, b),
        0 <= n <= a.len(),
    ensures
        nulls_in_first(a, n) == nulls_in_first(b, n),
    decreases n,
{
    if n > 0 {
        lemma_same_nulls(a, b, n - 1);
        assert(a[n - 1].elements() == b[n - 1].elements());
    }
}

proof fn lemma_same_bound(a: Seq<Array>, b: Seq<Array>, best: Option<ScalarView>, greatest: bool)
    requires
        same_elements(a, b),
        bound_so_far(a, a.len() as int, 0, best, greatest),
    ensures
        bound_so_far(b, b.len() as int, 0, best, greatest),
{
    let n = a.len() as int;
    assert forall|p: int, q: int| read_before(b, n, 0, p, q) implies read_before(a, n, 0, p, q)
        && a[p].elements()[q] == #[trigger] b[p].elements()[q] by {
        assert(a[p].elements() == b[p].elements());
    }
    match best {
        None => {},
        Some(e) => {
            let (p, q) = choose|p: int, q: int|
                read_before(a, n, 0, p, q) && #[trigger] a[p].elements()[q] == Some(e);
            assert(a[p].elements() == b[p].elements());
            assert(read_before(b, n, 0, p, q) && b[p].elements()[q] == Some(e));
        },
    }
}

/// Statistics depend on the elements that the arrays hold and on their type
/// alone: a row describes dictionary-encoded arrays exactly if it describes
/// plain arrays of the same type that hold the dictionaries' values.
pub proof fn lemma_dictionary_statistics(encoded: Seq<Array>, plain: Seq<Array>, row: StatisticsRow)
    requires
        encoded.len() > 0,
        same_elements(encoded, plain),
        encoded[0].data_type == plain[0].data_type,
    ensures
        describes(encoded, row) == describes(plain, row),
{
    lemma_same_nulls(encoded, plain, encoded.len() as int);
    assert(same_elements(plain, encoded)) by {
        assert forall|i: int| 0 <= i < plain.len() implies (#[trigger] plain[i]).elements()
            == encoded[i].elements() by {
            assert(encoded[i].elements() == plain[i].elements());
        }
    }
    assert forall|best: Option<ScalarView>, greatest: bool|
        bound_so_far(encoded, encoded.len() as int, 0, best, greatest) == #[trigger] bound_so_far(
            plain,
            plain.len() as int,
            0,
            best,
            greatest,
        ) by {
        if bound_so_far(encoded, encoded.len() as int, 0, best, greatest) {
            lemma_same_bound(encoded, plain, best, greatest);
        }
        if bound_so_far(plain, plain.len() as int, 0, best, greatest) {
            lemma_same_bound(plain, encoded, best, greatest);
        }
    }
    let text = encoded[0].data_type.kind_of() == Kind::Text;
    if describes(encoded, row) && !none_takes_part(encoded) {
        let lo = choose|e: ScalarView| #[trigger]
            is_least(encoded, e) && opt_scalar(row.min_value) == reported_min(e, text);
        assert(is_least(plain, lo));
        let hi = choose|e: ScalarView| #[trigger]
            is_greatest(encoded, e) && opt_scalar(row.max_value) == reported_max(e, text);
        assert(is_greatest(plain, hi));
    }
    if describes(plain, row) && !none_takes_part(plain) {
        let lo = choose|e: ScalarView| #[trigger]
            is_least(plain, e) && opt_scalar(row.min_value) == reported_min(e, text);
        assert(is_least(encoded, lo));
        let hi = choose|e: ScalarView| #[trigger]
            is_greatest(plain, e) && opt_scalar(row.max_value) == reported_max(e, text);
        assert(is_greatest(encoded, hi));
    }
}

/// A chunk has one row of statistics: two rows that describe the same
/// arrays have the same null count and the same bounds.
pub proof fn lemma_statistics_unique(arrays: Seq<Array>, a: StatisticsRow, b: StatisticsRow)
    requires
        one_chunk(arrays),
        describes(arrays, a),
        describes(arrays, b),
    ensures
        a.null_count == b.null_count,
        opt_scalar(a.min_value) == opt_scalar(b.min_value),
        opt_scalar(a.max_value) == opt_scalar(b.max_value),
{
    let text = arrays[0].data_type.kind_of() == Kind::Text;
    let n = arrays.len() as int;
    if !none_takes_part(arrays) {
        let lo_a = choose|e: ScalarView| #[trigger]
            is_least(arrays, e) && opt_scalar(a.min_value) == reported_min(e, text);
        let lo_b = choose|e: ScalarView| #[trigger]
            is_least(arrays, e) && opt_scalar(b.min_value) == reported_min(e, text);
        lemma_same_bound_value(arrays, lo_a, lo_b, false);
        let hi_a = choose|e: ScalarView| #[trigger]
            is_greatest(arrays, e) && opt_scalar(a.max_value) == reported_max(e, text);
        let hi_b = choose|e: ScalarView| #[trigger]
            is_greatest(arrays, e) && opt_scalar(b.max_value) == reported_max(e, text);
        lemma_same_bound_value(arrays, hi_a, hi_b, true);
    }
}

/// Two bounds of one chunk are the same byte string, or numbers with the
/// same normal form.
proof fn lemma_same_bound_value(arrays: Seq<Array>, x: ScalarView, y: ScalarView, greatest: bool)
    requires
        one_chunk(arrays),
        bound_so_far(arrays, arrays.len() as int, 0, Some(x), greatest),
        bound_so_far(arrays, arrays.len() as int, 0, Some(y), greatest),
    ensures
        match (x, y) {
            (ScalarView::Number(v), ScalarView::Number(w)) => v.normal_form() == w.normal_form(),
            (ScalarView::Bytes(v), ScalarView::Bytes(w)) => v == w,
            _ => false,
        },
{
    let n = arrays.len() as int;
    let (p, q) = choose|p: int, q: int|
        read_before(arrays, n, 0, p, q) && #[trigger] arrays[p].elements()[q] == Some(x);
    let (p2, q2) = choose|p: int, q: int|
        read_before(arrays, n, 0, p, q) && #[trigger] arrays[p].elements()[q] == Some(y);
    assert(in_order(greatest, x, y));
    assert(in_order(greatest, y, x));
    lemma_precedes_antisymmetric(x, y);
    lemma_element_of_type(arrays, p, q);
    lemma_element_of_type(arrays, p2, q2);
    match (x, y) {
        (ScalarView::Number(v), ScalarView::Number(w)) => {
            lemma_normal_form(v, w);
        },
        _ => {},
    }
}

/// The rows of a dictionary-encoded array: for each key the dictionary value
/// at its place, and a null for a null key.
pub open spec fn decoded(keys: Seq<Option<u32>>, values: Seq<Option<ScalarView>>) -> Seq<
    Option<ScalarView>,
> {
    Seq::new(
        keys.len(),
        |r: int|
            match keys[r] {
                Some(k) => if k < values.len() {
                    values[k as int]
                } else {
                    None
                },
                None => None,
            },
    )
}

/// `plain` holds the rows of the dictionary-encoded array `encoded`, whose
/// keys all lie in the dictionary and leave no value of it unused.
pub open spec fn decodes_to(encoded: Array, plain: Array) -> bool {
    let keys = encoded.keys->0@;
    let values = encoded.elements();
    &&& encoded.keys is Some
    &&& plain.elements() == decoded(keys, values)
    &&& forall|r: int| 0 <= r < keys.len() && (#[trigger] keys[r]) is Some
        ==> keys[r]->0 < values.len()
    &&& forall|k: int|
        0 <= k < values.len() && (#[trigger] values[k]) is Some ==> exists|r: int|
            0 <= r < keys.len() && (#[trigger] keys[r]) is Some && keys[r]->0 == k
}

/// Every array of `plain` holds the rows of the array of `encoded` at its
/// place.
pub open spec fn all_decode_to(encoded: Seq<Array>, plain: Seq<Array>) -> bool {
    &&& encoded.len() == plain.len()
    &&& forall|i: int| 0 <= i < encoded.len() ==> decodes_to(#[trigger] encoded[i], plain[i])
}

proof fn lemma_decoded_bound(
    encoded: Seq<Array>,
    plain: Seq<Array>,
    best: Option<ScalarView>,
    greatest: bool,
)
    requires
        all_decode_to(encoded, plain),
    ensures
        bound_so_far(encoded, encoded.len() as int, 0, best, greatest) == bound_so_far(
            plain,
            plain.len() as int,
            0,
            best,
            greatest,
        ),
{
    let n = encoded.len() as int;
    // Every present row of a plain array is a value of the dictionary.
    assert forall|p: int, q: int| read_before(plain, n, 0, p, q)
        && (#[trigger] plain[p].elements()[q]) is Some
        implies exists|k: int| read_before(encoded, n, 0, p, k)
            && #[trigger] encoded[p].elements()[k] == plain[p].elements()[q] by {
        assert(decodes_to(encoded[p], plain[p]));
        let keys = encoded[p].keys->0@;
        let k = keys[q]->0 as int;
        assert(keys[q] is Some);
        assert(read_before(encoded, n, 0, p, k));
        assert(encoded[p].elements()[k] == plain[p].elements()[q]);
    }
    // Every present value of a dictionary is a row of the plain array.
    assert forall|p: int, k: int| read_before(encoded, n, 0, p, k)
        && (#[trigger] encoded[p].elements()[k]) is Some
        implies exists|q: int| read_before(plain, n, 0, p, q) && #[trigger] plain[p].elements()[q]
            == encoded[p].elements()[k] by {
        assert(decodes_to(encoded[p], plain[p]));
        let keys = encoded[p].keys->0@;
        let values = encoded[p].elements();
        assert(values[k] is Some);
        let r = choose|r: int|
            0 <= r < keys.len() && (#[trigger] keys[r]) is Some && keys[r]->0 == k;
        assert(read_before(plain, n, 0, p, r));
        assert(plain[p].elements()[r] == values[k]);
    }
    if bound_so_far(encoded, n, 0, best, greatest) {
        assert forall|p: int, q: int| read_before(plain, n, 0, p, q)
            implies match #[trigger] plain[p].elements()[q] {
            Some(o) => match best {
                Some(e) => takes_part(o) ==> in_order(greatest, e, o),
                None => !takes_part(o),
            },
            None => true,
        } by {
            if plain[p].elements()[q] is Some {
                let k = choose|k: int| read_before(encoded, n, 0, p, k)
                    && #[trigger] encoded[p].elements()[k] == plain[p].elements()[q];
                assert(encoded[p].elements()[k] is Some);
            }
        }
        match best {
            Some(e) => {
                let (p, k) = choose|p: int, k: int|
                    read_before(encoded, n, 0, p, k) && #[trigger] encoded[p].elements()[k]
                        == Some(e);
                assert(encoded[p].elements()[k] is Some);
                let q = choose|q: int| read_before(plain, n, 0, p, q)
                    && #[trigger] plain[p].elements()[q] == encoded[p].elements()[k];
                assert(plain[p].elements()[q] == Some(e));
            },
            None => {},
        }
        assert(bound_so_far(plain, n, 0, best, greatest));
    }
    if bound_so_far(plain, n, 0, best, greatest) {
        assert forall|p: int, k: int| read_before(encoded, n, 0, p, k)
            implies match #[trigger] encoded[p].elements()[k] {
            Some(o) => match best {
                Some(e) => takes_part(o) ==> in_order(greatest, e, o),
                None => !takes_part(o),
            },
            None => true,
        } by {
            if encoded[p].elements()[k] is Some {
                let q = choose|q: int| read_before(plain, n, 0, p, q)
                    && #[trigger] plain[p].elements()[q] == encoded[p].elements()[k];
                assert(plain[p].elements()[q] is Some);
            }
        }
        match best {
            Some(e) => {
                let (p, q) = choose|p: int, q: int|
                    read_before(plain, n, 0, p, q) && #[trigger] plain[p].elements()[q] == Some(e);
                assert(plain[p].elements()[q] is Some);
                let k = choose|k: int| read_before(encoded, n, 0, p, k)
                    && #[trigger] encoded[p].elements()[k] == plain[p].elements()[q];
                assert(encoded[p].elements()[k] == Some(e));
            },
            None => {},
        }
        assert(bound_so_far(encoded, n, 0, best, greatest));
    }
}

/// The statistics of dictionary-encoded arrays are the statistics of plain
/// arrays of the same type that hold their rows, where the dictionaries hold
/// no unused value and as many nulls as the rows do.
pub proof fn lemma_decoded_statistics(encoded: Seq<Array>, plain: Seq<Array>, row: StatisticsRow)
    requires
        encoded.len() > 0,
        all_decode_to(encoded, plain),
        encoded[0].data_type == plain[0].data_type,
        total_nulls(encoded) == total_nulls(plain),
    ensures
        describes(encoded, row) == describes(plain, row),
{
    assert forall|best: Option<ScalarView>, greatest: bool|
        bound_so_far(encoded, encoded.len() as int, 0, best, greatest) == #[trigger] bound_so_far(
            plain,
            plain.len() as int,
            0,
            best,
            greatest,
        ) by {
        lemma_decoded_bound(encoded, plain, best, greatest);
    }
    let text = encoded[0].data_type.kind_of() == Kind::Text;
    if describes(encoded, row) && !none_takes_part(encoded) {
        let lo = choose|e: ScalarView| #[trigger]
            is_least(encoded, e) && opt_scalar(row.min_value) == reported_min(e, text);
        assert(is_least(plain, lo));
        let hi = choose|e: ScalarView| #[trigger]
            is_greatest(encoded, e) && opt_scalar(row.max_value) == reported_max(e, text);
        assert(is_greatest(plain, hi));
    }
    if describes(plain, row) && !none_takes_part(plain) {
        let lo = choose|e: ScalarView| #[trigger]
            is_least(plain, e) && opt_scalar(row.min_value) == reported_min(e, text);
        assert(is_least(encoded, lo));
        let hi = choose|e: ScalarView| #[trigger]
            is_greatest(plain, e) && opt_scalar(row.max_value) == reported_max(e, text);
        assert(is_greatest(encoded, hi));
    }
}

} // verus!
