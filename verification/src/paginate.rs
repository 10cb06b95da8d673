//! The generic filter and pagination engine.
//!
//! A `Paginator` owns a collection of records and a list of filters. Records
//! expose their fields by name as text; every comparison is made on the
//! normalized (trimmed, lowercased) string form of both sides, including the
//! ordering operators, which compare lexicographically. A page is cut from
//! the collection first and the filters are applied to that page alone, so a
//! page's record count reflects the filtered page, not a global total.

use vstd::prelude::*;

use crate::strings::{
    has_substr, lex_le, lex_lt, norm_of, normalize_str, str_contains_sub, str_eq, str_le, str_lt,
};

verus! {

/// A record usable with the filter engine: it has a mathematical model, its
/// fields can be read by name as text, and it can be copied without changing
/// its model.
pub trait HasFields: Sized {
    /// The mathematical model of a record.
    type V;

    /// The model of this record.
    spec fn model(&self) -> Self::V;

    /// The text form of the named field of a model; unknown names read as
    /// empty.
    spec fn field_of(m: Self::V, name: Seq<char>) -> Seq<char>;

    /// Reads the named field as text.
    fn get_field(&self, field_name: &str) -> (r: String)
        ensures
            r@ == Self::field_of(self.model(), field_name@),
    ;

    /// Copies the record; the copy has the same model.
    fn duplicate(&self) -> (r: Self)
        ensures
            r.model() == self.model(),
    ;
}

/// The models of a sequence of records, in order.
pub open spec fn models<T: HasFields>(s: Seq<T>) -> Seq<T::V> {
    s.map_values(|t: T| t.model())
}

/// A comparison applied to one field of a record.
#[allow(non_camel_case_types)]
#[derive(Clone, Copy, Debug, PartialEq, Eq, Structural)]
pub enum Operator {
    EQUAL,
    NOT_EQUAL,
    LESS_THAN,
    LESS_THAN_OR_EQUAL,
    GREATER_THAN,
    GREATER_THAN_OR_EQUAL,
    NOT_ILIKE,
    ILIKE,
    BETWEEN,
    NOT_BETWEEN,
    IN,
    NOT_IN,
}

/// One field-level predicate: the named field is compared against `value`,
/// or against `between` bounds, or against a list of `values`, depending on
/// the operator.
pub struct Filter {
    pub field: String,
    pub operator: Operator,
    pub value: String,
    pub between: Option<(String, String)>,
    pub values: Option<Vec<String>>,
}

/// One page of records, with the count of records on the page and the
/// normalized page number.
pub struct PaginatorResponse<T> {
    pub total_data: usize,
    pub curr_page: usize,
    pub data: Vec<T>,
}

/// Slices a collection into pages and evaluates filters over each page.
pub struct Paginator<T> {
    pub data: Vec<T>,
    pub filters: Vec<Filter>,
}

/// Why a pagination request was rejected.
#[derive(Clone, Copy, Debug, PartialEq, Eq, Structural)]
pub enum EngineError {
    NotFound,
    NotAuthorized,
    InvalidOperation,
}

/// Whether the normalized field value equals some normalized entry of `vs`.
pub open spec fn in_values(fv: Seq<char>, vs: Seq<String>) -> bool {
    exists|i: int| 0 <= i < vs.len() && fv == norm_of(#[trigger] vs[i]@)
}

/// Whether a record satisfies one filter. Both sides of every comparison are
/// normalized first; the ordering operators compare lexicographically.
pub open spec fn passes_filter<T: HasFields>(m: T::V, f: Filter) -> bool {
    let fv = norm_of(T::field_of(m, f.field@));
    let xv = norm_of(f.value@);
    match f.operator {
        Operator::EQUAL => fv == xv,
        Operator::NOT_EQUAL => fv != xv,
        Operator::LESS_THAN => lex_lt(fv, xv),
        Operator::LESS_THAN_OR_EQUAL => lex_le(fv, xv),
        Operator::GREATER_THAN => lex_lt(xv, fv),
        Operator::GREATER_THAN_OR_EQUAL => lex_le(xv, fv),
        Operator::ILIKE => has_substr(fv, xv),
        Operator::NOT_ILIKE => !has_substr(fv, xv),
        Operator::BETWEEN => match f.between {
            Some(b) => lex_le(norm_of(b.0@), fv) && lex_le(fv, norm_of(b.1@)),
            None => false,
        },
        Operator::NOT_BETWEEN => match f.between {
            Some(b) => lex_lt(fv, norm_of(b.0@)) && lex_lt(norm_of(b.1@), fv),
            None => false,
        },
        Operator::IN => match f.values {
            Some(vs) => in_values(fv, vs@),
            None => false,
        },
        Operator::NOT_IN => match f.values {
            Some(vs) => !in_values(fv, vs@),
            None => true,
        },
    }
}

/// Whether a record satisfies every filter of a set.
pub open spec fn passes_all<T: HasFields>(m: T::V, filters: Seq<Filter>) -> bool {
    forall|i: int| 0 <= i < filters.len() ==> passes_filter::<T>(m, #[trigger] filters[i])
}

/// The records of `s` that satisfy every filter, in order.
pub open spec fn filter_models<T: HasFields>(s: Seq<T::V>, filters: Seq<Filter>) -> Seq<T::V> {
    s.filter(|m: T::V| passes_all::<T>(m, filters))
}

fn eval_in(field_value: &String, vals: &Vec<String>) -> (r: bool)
    ensures
        r == in_values(field_value@, vals@),
{
    let n: usize = vals.len();
    let mut i: usize = 0;
    while i < n
        invariant
            i <= n,
            n == vals@.len(),
            forall|k: int| 0 <= k < i ==> field_value@ != norm_of(#[trigger] vals@[k]@),
        decreases n - i,
    {
        let v = normalize_str(vals[i].as_str());
        if str_eq(field_value.as_str(), v.as_str()) {
            return true;
        }
        i += 1;
    }
    false
}

/// Evaluates one filter against one record.
pub fn eval_filter<T: HasFields>(item: &T, f: &Filter) -> (r: bool)
    ensures
        r == passes_filter::<T>(item.model(), *f),
{
    let raw = item.get_field(f.field.as_str());
    let field_value = normalize_str(raw.as_str());
    let filter_value = normalize_str(f.value.as_str());
    match f.operator {
        Operator::EQUAL => str_eq(field_value.as_str(), filter_value.as_str()),
        Operator::NOT_EQUAL => !str_eq(field_value.as_str(), filter_value.as_str()),
        Operator::LESS_THAN => str_lt(field_value.as_str(), filter_value.as_str()),
        Operator::LESS_THAN_OR_EQUAL => str_le(field_value.as_str(), filter_value.as_str()),
        Operator::GREATER_THAN => str_lt(filter_value.as_str(), field_value.as_str()),
        Operator::GREATER_THAN_OR_EQUAL => str_le(filter_value.as_str(), field_value.as_str()),
        Operator::ILIKE => str_contains_sub(field_value.as_str(), filter_value.as_str()),
        Operator::NOT_ILIKE => !str_contains_sub(field_value.as_str(), filter_value.as_str()),
        Operator::BETWEEN => match &f.between {
            Some(b) => {
                let mn = normalize_str(b.0.as_str());
                let mx = normalize_str(b.1.as_str());
                str_le(mn.as_str(), field_value.as_str()) && str_le(
                    field_value.as_str(),
                    mx.as_str(),
                )
            },
            None => false,
        },
        Operator::NOT_BETWEEN => match &f.between {
            Some(b) => {
                let mn = normalize_str(b.0.as_str());
                let mx = normalize_str(b.1.as_str());
                str_lt(field_value.as_str(), mn.as_str()) && str_lt(
                    mx.as_str(),
                    field_value.as_str(),
                )
            },
            None => false,
        },
        Operator::IN => match &f.values {
            Some(vs) => eval_in(&field_value, vs),
            None => false,
        },
        Operator::NOT_IN => match &f.values {
            Some(vs) => !eval_in(&field_value, vs),
            None => true,
        },
    }
}

fn eval_all<T: HasFields>(item: &T, filters: &Vec<Filter>) -> (r: bool)
    ensures
        r == passes_all::<T>(item.model(), filters@),
{
    let n: usize = filters.len();
    let mut i: usize = 0;
    while i < n
        invariant
            i <= n,
            n == filters@.len(),
            forall|k: int| 0 <= k < i ==> passes_filter::<T>(item.model(), #[trigger] filters@[k]),
        decreases n - i,
    {
        if !eval_filter(item, &filters[i]) {
            return false;
        }
        i += 1;
    }
    true
}

proof fn lemma_filter_models_push<T: HasFields>(ms: Seq<T::V>, filters: Seq<Filter>, m: T::V)
    ensures
        filter_models::<T>(ms.push(m), filters) == if passes_all::<T>(m, filters) {
            filter_models::<T>(ms, filters).push(m)
        } else {
            filter_models::<T>(ms, filters)
        },
{
    assert(ms.push(m).drop_last() =~= ms);
    assert(ms.push(m).last() == m);
    reveal(Seq::filter);
}

/// A set of filters that is empty keeps every record.
pub proof fn lemma_filter_models_empty_filters<T: HasFields>(s: Seq<T::V>, filters: Seq<Filter>)
    requires
        filters.len() == 0,
    ensures
        filter_models::<T>(s, filters) == s,
    decreases s.len(),
{
    reveal(Seq::filter);
    if s.len() == 0 {
        assert(filter_models::<T>(s, filters) =~= s);
    } else {
        lemma_filter_models_empty_filters::<T>(s.drop_last(), filters);
        assert(filter_models::<T>(s, filters) =~= s.drop_last().push(s.last()));
        assert(s.drop_last().push(s.last()) =~= s);
    }
}

/// The page that a paginator cuts before filtering: records
/// `[(page-1)*per_page, min((page-1)*per_page + per_page, len))`, or nothing
/// when the start lies at or past the end.
pub open spec fn page_slice<T>(data: Seq<T>, page: int, per_page: int) -> Seq<T> {
    let count = data.len() as int;
    let start = (page - 1) * per_page;
    let end = if start + per_page <= count {
        start + per_page
    } else {
        count
    };
    if start < count {
        data.subrange(start, end)
    } else {
        Seq::empty()
    }
}

/// The page number reported back: the requested page, clamped to the total
/// page count (integer division).
pub open spec fn curr_page_spec(count: int, page: int, per_page: int) -> int {
    let total_page = count / per_page;
    if page > total_page {
        total_page
    } else {
        page
    }
}

impl<T: HasFields> Paginator<T> {
    /// Builds a paginator over a collection with a set of filters.
    pub fn new(data: Vec<T>, filters: Vec<Filter>) -> (r: Paginator<T>)
        ensures
            r.data == data,
            r.filters == filters,
    {
        Paginator { data, filters }
    }

    /// Normalizes a value for comparison: trim surrounding whitespace, then
    /// lowercase.
    pub fn normalize_value(value: String) -> (r: String)
        ensures
            r@ == norm_of(value@),
    {
        normalize_str(value.as_str())
    }

    /// Keeps the records that satisfy every filter. When `data` or `filters`
    /// is absent, the paginator's own collection or filter set is used.
    pub fn filter_data(&self, data: Option<Vec<T>>, filters: Option<Vec<Filter>>) -> (r: Vec<T>)
        ensures
            models(r@) == filter_models::<T>(
                models(
                    match data {
                        Some(d) => d@,
                        None => self.data@,
                    },
                ),
                match filters {
                    Some(f) => f@,
                    None => self.filters@,
                },
            ),
    {
        let src: &Vec<T> = match &data {
            Some(d) => d,
            None => &self.data,
        };
        let used: &Vec<Filter> = match &filters {
            Some(f) => f,
            None => &self.filters,
        };
        let n: usize = src.len();
        let mut out: Vec<T> = Vec::new();
        proof {
            assert(models(out@) =~= Seq::<T::V>::empty());
            assert(models(src@.take(0)) =~= Seq::<T::V>::empty());
            assert(filter_models::<T>(models(src@.take(0)), used@) =~= Seq::<T::V>::empty()) by {
                reveal(Seq::filter);
            }
        }
        let mut i: usize = 0;
        while i < n
            invariant
                i <= n,
                n == src@.len(),
                models(out@) == filter_models::<T>(models(src@.take(i as int)), used@),
            decreases n - i,
        {
            proof {
                lemma_filter_models_push::<T>(
                    models(src@.take(i as int)),
                    used@,
                    src@[i as int].model(),
                );
                assert(models(src@.take(i as int + 1)) =~= models(src@.take(i as int)).push(
                    src@[i as int].model(),
                ));
            }
            if eval_all(&src[i], used) {
                let d = src[i].duplicate();
                out.push(d);
                proof {
                    assert(models(out@) =~= filter_models::<T>(
                        models(src@.take(i as int + 1)),
                        used@,
                    ));
                }
            } else {
                proof {
                    assert(models(out@) =~= filter_models::<T>(
                        models(src@.take(i as int + 1)),
                        used@,
                    ));
                }
            }
            i += 1;
        }
        proof {
            assert(src@.take(n as int) =~= src@);
        }
        out
    }

    /// Cuts the requested page out of the collection, then applies the
    /// filters to that page alone. Rejects a request whose page or page size
    /// is zero. The reported page number is clamped to the total page count,
    /// and the reported record count is the filtered page's length.
    pub fn get(&self, page: usize, per_page: usize) -> (r: Result<
        PaginatorResponse<T>,
        EngineError,
    >)
        ensures
            match r {
                Ok(resp) => page >= 1 && per_page >= 1 && models(resp.data@) == filter_models::<
                    T,
                >(
                    page_slice(models(self.data@), page as int, per_page as int),
                    self.filters@,
                ) && resp.curr_page == curr_page_spec(
                    self.data@.len() as int,
                    page as int,
                    per_page as int,
                ) && resp.total_data == resp.data@.len(),
                Err(e) => (page == 0 || per_page == 0) && e == EngineError::InvalidOperation,
            },
    {
        if page == 0 || per_page == 0 {
            return Err(EngineError::InvalidOperation);
        }
        let count: usize = self.data.len();
        let total_page: usize = count / per_page;
        let curr: usize = if page > total_page {
            total_page
        } else {
            page
        };
        let p1: usize = page - 1;
        let mut fetched: Vec<T> = Vec::new();
        let ghost c = count as int;
        let ghost pp = per_page as int;
        let ghost gstart = (page as int - 1) * pp;
        proof {
            vstd::arithmetic::div_mod::lemma_fundamental_div_mod(c, pp);
        }
        if p1 <= total_page {
            proof {
                assert(p1 as int * pp <= (c / pp) * pp) by (nonlinear_arith)
                    requires
                        p1 as int <= c / pp,
                        pp >= 1,
                ;
                assert((c / pp) * pp <= c);
            }
            let start: usize = p1 * per_page;
            if start < count {
                let end: usize = if per_page <= count - start {
                    start + per_page
                } else {
                    count
                };
                proof {
                    assert(models(fetched@) =~= models(self.data@).subrange(gstart, gstart));
                }
                let mut idx: usize = start;
                while idx < end
                    invariant
                        start <= idx <= end <= count,
                        count == self.data@.len(),
                        models(fetched@) == models(self.data@).subrange(
                            start as int,
                            idx as int,
                        ),
                    decreases end - idx,
                {
                    let d = self.data[idx].duplicate();
                    fetched.push(d);
                    proof {
                        assert(models(fetched@) =~= models(self.data@).subrange(
                            start as int,
                            idx as int,
                        ).push(models(self.data@)[idx as int]));
                        assert(models(self.data@).subrange(start as int, idx as int + 1)
                            =~= models(self.data@).subrange(start as int, idx as int).push(
                            models(self.data@)[idx as int],
                        ));
                    }
                    idx += 1;
                }
                proof {
                    assert(models(fetched@) == page_slice(
                        models(self.data@),
                        page as int,
                        per_page as int,
                    ));
                }
            } else {
                proof {
                    assert(models(fetched@) =~= Seq::<T::V>::empty());
                    assert(models(fetched@) == page_slice(
                        models(self.data@),
                        page as int,
                        per_page as int,
                    ));
                }
            }
        } else {
            proof {
                assert(p1 as int >= c / pp + 1);
                assert(p1 as int * pp >= (c / pp + 1) * pp) by (nonlinear_arith)
                    requires
                        p1 as int >= c / pp + 1,
                        pp >= 1,
                ;
                assert((c / pp + 1) * pp == (c / pp) * pp + pp) by (nonlinear_arith);
                assert(c % pp < pp);
                assert(gstart >= c);
                assert(models(fetched@) =~= Seq::<T::V>::empty());
                assert(models(fetched@) == page_slice(
                    models(self.data@),
                    page as int,
                    per_page as int,
                ));
            }
        }
        let result: Vec<T> = if self.filters.len() > 0 {
            self.filter_data(Some(fetched), None)
        } else {
            proof {
                lemma_filter_models_empty_filters::<T>(models(fetched@), self.filters@);
            }
            fetched
        };
        let total_data: usize = result.len();
        Ok(PaginatorResponse { total_data, curr_page: curr, data: result })
    }

    /// The size of the whole collection, before paging or filtering.
    pub fn total(&self) -> (r: usize)
        ensures
            r == self.data@.len(),
    {
        self.data.len()
    }
}

/// Lexicographic order never puts a sequence before itself.
pub proof fn lemma_lex_lt_irreflexive(a: Seq<char>)
    ensures
        !lex_lt(a, a),
    decreases a.len(),
{
    if a.len() > 0 {
        lemma_lex_lt_irreflexive(a.drop_first());
    }
}

/// Lexicographic order is transitive.
pub proof fn lemma_lex_lt_transitive(a: Seq<char>, b: Seq<char>, c: Seq<char>)
    requires
        lex_lt(a, b),
        lex_lt(b, c),
    ensures
        lex_lt(a, c),
    decreases a.len(),
{
    if a.len() == 0 {
    } else {
        if a[0] == b[0] && b[0] == c[0] {
            lemma_lex_lt_transitive(a.drop_first(), b.drop_first(), c.drop_first());
        }
    }
}

/// The dead predicate behind NOT_BETWEEN: no value lies strictly below the
/// lower bound and strictly above the upper bound at once when the bounds
/// are in order.
pub proof fn lemma_not_between_dead(fv: Seq<char>, mn: Seq<char>, mx: Seq<char>)
    requires
        lex_le(mn, mx),
    ensures
        !(lex_lt(fv, mn) && lex_lt(mx, fv)),
{
    if lex_lt(fv, mn) && lex_lt(mx, fv) {
        if mn == mx {
            lemma_lex_lt_transitive(fv, mn, fv);
            lemma_lex_lt_irreflexive(fv);
        } else {
            lemma_lex_lt_transitive(fv, mn, mx);
            lemma_lex_lt_transitive(fv, mx, fv);
            lemma_lex_lt_irreflexive(fv);
        }
    }
}

/// A NOT_BETWEEN filter whose normalized bounds are in order rejects every
/// record: its predicate can never hold.
pub proof fn lemma_not_between_rejects_all<T: HasFields>(m: T::V, f: Filter)
    requires
        f.operator is NOT_BETWEEN,
        match f.between {
            Some(b) => lex_le(norm_of(b.0@), norm_of(b.1@)),
            None => true,
        },
    ensures
        !passes_filter::<T>(m, f),
{
    match f.between {
        Some(b) => {
            lemma_not_between_dead(norm_of(T::field_of(m, f.field@)), norm_of(b.0@), norm_of(b.1@));
        },
        None => {},
    }
}

/// An IN filter with no values rejects every record.
pub proof fn lemma_in_empty_rejects_all<T: HasFields>(m: T::V, f: Filter)
    requires
        f.operator is IN,
        match f.values {
            Some(vs) => vs@.len() == 0,
            None => true,
        },
    ensures
        !passes_filter::<T>(m, f),
{
}

/// A NOT_IN filter with no values keeps every record.
pub proof fn lemma_not_in_empty_keeps_all<T: HasFields>(m: T::V, f: Filter)
    requires
        f.operator is NOT_IN,
        match f.values {
            Some(vs) => vs@.len() == 0,
            None => true,
        },
    ensures
        passes_filter::<T>(m, f),
{
}

/// Pagination is a pure function of the paginator and the request: any two
/// results that meet `get`'s contract for the same paginator, page and page
/// size carry the same records, page number and count.
pub proof fn lemma_get_idempotent<T: HasFields>(
    p: Paginator<T>,
    page: int,
    per_page: int,
    r1: PaginatorResponse<T>,
    r2: PaginatorResponse<T>,
)
    requires
        page >= 1,
        per_page >= 1,
        models(r1.data@) == filter_models::<T>(
            page_slice(models(p.data@), page, per_page),
            p.filters@,
        ),
        r1.curr_page == curr_page_spec(p.data@.len() as int, page, per_page),
        r1.total_data == r1.data@.len(),
        models(r2.data@) == filter_models::<T>(
            page_slice(models(p.data@), page, per_page),
            p.filters@,
        ),
        r2.curr_page == curr_page_spec(p.data@.len() as int, page, per_page),
        r2.total_data == r2.data@.len(),
    ensures
        models(r1.data@) == models(r2.data@),
        r1.curr_page == r2.curr_page,
        r1.total_data == r2.total_data,
{
    assert(r1.data@.len() == models(r1.data@).len());
    assert(r2.data@.len() == models(r2.data@).len());
}

} // verus!
