use vstd::prelude::*;
use crate::text::{contains_str, has_infix, views};

verus! {

/// How stored records are ordered for display or selection.
#[derive(Clone, Copy, Debug, PartialEq, Eq)]
pub enum SortBy {
    TimeNew,
    TimeOld,
    NameNew,
    NameOld,
}

/// The remote catalog's versions in their canonical order: the earliest listed has rank 0.
pub struct CatalogOrder {
    pub names: Vec<String>,
}

impl View for CatalogOrder {
    type V = Seq<Seq<char>>;

    open spec fn view(&self) -> Seq<Seq<char>> {
        views(self.names@)
    }
}

/// `i` is the first position of `id` in `names`.
pub open spec fn first_at(names: Seq<Seq<char>>, id: Seq<char>, i: int) -> bool {
    &&& 0 <= i < names.len()
    &&& names[i] == id
    &&& forall|j: int| 0 <= j < i ==> names[j] != id
}

/// The rank of `id` in the catalog: its first position, if it is listed.
pub open spec fn rank_in(names: Seq<Seq<char>>, id: Seq<char>) -> Option<int> {
    if exists|i: int| first_at(names, id, i) {
        Some(choose|i: int| first_at(names, id, i))
    } else {
        None
    }
}

impl CatalogOrder {
    pub fn new(names: Vec<String>) -> (r: CatalogOrder)
        ensures
            r.names@ == names@,
    {
        CatalogOrder { names }
    }

    /// The rank of `id`, or `None` when the catalog does not list it.
    pub fn rank_of(&self, id: &String) -> (r: Option<usize>)
        ensures
            match r {
                Some(i) => rank_in(self@, id@) == Some(i as int),
                None => rank_in(self@, id@) is None,
            },
    {
        let mut i: usize = 0;
        while i < self.names.len()
            invariant
                i <= self.names@.len(),
                forall|j: int| 0 <= j < i ==> self@[j] != id@,
            decreases self.names.len() - i,
        {
            if self.names[i] == *id {
                assert(first_at(self@, id@, i as int));
                assert forall|k: int| first_at(self@, id@, k) implies k == i by {
                    if k < i {
                        assert(self@[k] != id@);
                    } else if k > i {
                        assert(self@[i as int] == id@);
                    }
                }
                return Some(i);
            }
            i = i + 1;
        }
        None
    }
}

/// The names that `bytes` encode, if they encode a list of names.
pub uninterp spec fn decoded_names(bytes: Seq<u8>) -> Option<Seq<Seq<char>>>;

/// The encoding of a list of names.
pub uninterp spec fn encoded_names(names: Seq<Seq<char>>) -> Seq<u8>;

/// Relies on `bincode::deserialize::<Vec<String>>`: the list of strings that
/// `bytes` encode; `None` when they encode none.
#[verifier::external_body]
fn decode_names(bytes: &Vec<u8>) -> (r: Option<Vec<String>>)
    ensures
        match r {
            Some(v) => decoded_names(bytes@) == Some(views(v@)),
            None => decoded_names(bytes@) is None,
        },
{
    match bincode::deserialize::<Vec<String>>(bytes) {
        Ok(v) => Some(v),
        Err(_) => None,
    }
}

/// Relies on `bincode::serialize` of a `Vec<String>`: its encoding, when
/// encoding succeeds.
#[verifier::external_body]
fn encode_names(names: &Vec<String>) -> (r: Option<Vec<u8>>)
    ensures
        r is Some ==> r->0@ == encoded_names(views(names@)),
{
    match bincode::serialize(names) {
        Ok(b) => Some(b),
        Err(_) => None,
    }
}

impl CatalogOrder {
    /// The catalog order kept in the cache; an empty order (every rank
    /// unknown) when the bytes hold none.
    pub fn from_cache(bytes: &Vec<u8>) -> (r: CatalogOrder)
        ensures
            r@ == match decoded_names(bytes@) {
                Some(ns) => ns,
                None => Seq::<Seq<char>>::empty(),
            },
    {
        match decode_names(bytes) {
            Some(names) => CatalogOrder { names },
            None => {
                let names: Vec<String> = Vec::new();
                assert(views(names@) =~= Seq::<Seq<char>>::empty());
                CatalogOrder { names }
            },
        }
    }

    /// The bytes that keep this order in the cache.
    pub fn to_cache(&self) -> (r: Option<Vec<u8>>)
        ensures
            r is Some ==> r->0@ == encoded_names(self@),
    {
        encode_names(&self.names)
    }
}

/// The seconds of the date and time that `text` gives in `format`, or `None`
/// when it does not read as one.
pub uninterp spec fn datetime_seconds(text: Seq<char>, format: Seq<char>) -> Option<i64>;

/// Relies on chrono's `NaiveDateTime::parse_from_str`, which reads `text` by
/// `format`, and on `and_utc().timestamp()`, which counts the non-leap seconds
/// of the result since 1970-01-01 00:00:00.
#[verifier::external_body]
fn parse_datetime(text: &str, format: &str) -> (r: Option<i64>)
    ensures
        r == datetime_seconds(text@, format@),
{
    match chrono::NaiveDateTime::parse_from_str(text, format) {
        Ok(t) => Some(t.and_utc().timestamp()),
        Err(_) => None,
    }
}

/// The fixed layout of stored timestamps.
pub open spec fn time_format() -> Seq<char> {
    "%Y-%m-%d %H:%M:%S"@
}

/// What a record is ordered by: its catalog rank, or its timestamp in seconds;
/// `None` when the rank is unknown or the timestamp does not parse.
pub open spec fn record_key(
    order: Seq<Seq<char>>,
    rec: (Seq<char>, Seq<char>),
    by: SortBy,
) -> Option<int> {
    match by {
        SortBy::NameNew | SortBy::NameOld => rank_in(order, rec.0),
        SortBy::TimeNew | SortBy::TimeOld => match datetime_seconds(rec.1, time_format()) {
            Some(t) => Some(t as int),
            None => None,
        },
    }
}

/// Whether the known keys go from largest to smallest.
pub open spec fn descending(by: SortBy) -> bool {
    by is NameOld || by is TimeNew
}

/// `a` may come before `b`: known keys in the direction asked for, and every
/// unknown key after all known ones.
pub open spec fn key_le(a: Option<int>, b: Option<int>, desc: bool) -> bool {
    match (a, b) {
        (Some(x), Some(y)) => if desc {
            y <= x
        } else {
            x <= y
        },
        (Some(_), None) => true,
        (None, Some(_)) => false,
        (None, None) => true,
    }
}

pub open spec fn record_views(v: Seq<(String, String)>) -> Seq<(Seq<char>, Seq<char>)> {
    v.map_values(|p: (String, String)| (p.0@, p.1@))
}

/// The records of `rs` whose key is `k`, in their order.
pub open spec fn with_key(
    rs: Seq<(Seq<char>, Seq<char>)>,
    order: Seq<Seq<char>>,
    by: SortBy,
    k: Option<int>,
) -> Seq<(Seq<char>, Seq<char>)> {
    rs.filter(|x: (Seq<char>, Seq<char>)| record_key(order, x, by) == k)
}

/// `out` is `input` sorted by `by`, stably: keys never go backwards, and the
/// records that share a key keep their order.
pub open spec fn stably_sorted(
    out: Seq<(Seq<char>, Seq<char>)>,
    input: Seq<(Seq<char>, Seq<char>)>,
    order: Seq<Seq<char>>,
    by: SortBy,
) -> bool {
    &&& out.len() == input.len()
    &&& forall|i: int, j: int|
        0 <= i < j < out.len() ==> key_le(
            record_key(order, out[i], by),
            record_key(order, out[j], by),
            descending(by),
        )
    &&& forall|k: Option<int>| with_key(out, order, by, k) == with_key(input, order, by, k)
}

pub open spec fn opt_int(k: Option<i128>) -> Option<int> {
    match k {
        Some(x) => Some(x as int),
        None => None,
    }
}

proof fn lemma_key_le_laws(a: Option<int>, b: Option<int>, c: Option<int>, desc: bool)
    ensures
        key_le(a, a, desc),
        key_le(a, b, desc) || key_le(b, a, desc),
        key_le(a, b, desc) && key_le(b, c, desc) ==> key_le(a, c, desc),
{
}

fn key_le_exec(a: Option<i128>, b: Option<i128>, desc: bool) -> (r: bool)
    ensures
        r == key_le(opt_int(a), opt_int(b), desc),
{
    match (a, b) {
        (Some(x), Some(y)) => if desc {
            y <= x
        } else {
            x <= y
        },
        (Some(_), None) => true,
        (None, Some(_)) => false,
        (None, None) => true,
    }
}

/// The key that `by` orders `rec` by.
fn key_of(order: &CatalogOrder, rec: &(String, String), by: SortBy) -> (r: Option<i128>)
    ensures
        opt_int(r) == record_key(order@, (rec.0@, rec.1@), by),
{
    match by {
        SortBy::NameNew | SortBy::NameOld => match order.rank_of(&rec.0) {
            Some(i) => Some(i as i128),
            None => None,
        },
        SortBy::TimeNew | SortBy::TimeOld => match parse_datetime(
            rec.1.as_str(),
            "%Y-%m-%d %H:%M:%S",
        ) {
            Some(t) => Some(t as i128),
            None => None,
        },
    }
}

/// Inserting `x` after every record whose key may come before its own, and
/// before every other, keeps a stable sort stable.
proof fn lemma_insert_step(
    ov: Seq<(Seq<char>, Seq<char>)>,
    prefix: Seq<(Seq<char>, Seq<char>)>,
    x: (Seq<char>, Seq<char>),
    p: int,
    ord: Seq<Seq<char>>,
    by: SortBy,
)
    requires
        stably_sorted(ov, prefix, ord, by),
        0 <= p <= ov.len(),
        forall|j: int|
            0 <= j < p ==> key_le(
                record_key(ord, #[trigger] ov[j], by),
                record_key(ord, x, by),
                descending(by),
            ),
        forall|j: int|
            p <= j < ov.len() ==> !key_le(
                record_key(ord, #[trigger] ov[j], by),
                record_key(ord, x, by),
                descending(by),
            ),
    ensures
        stably_sorted(ov.insert(p, x), prefix.push(x), ord, by),
{
    let nv = ov.insert(p, x);
    let desc = descending(by);
    let kx = record_key(ord, x, by);
    let lo = ov.subrange(0, p);
    let hi = ov.subrange(p, ov.len() as int);
    assert(ov =~= lo + hi);
    assert(nv =~= lo + seq![x] + hi);
    assert forall|a: int, b: int| 0 <= a < b < nv.len() implies key_le(
        record_key(ord, nv[a], by),
        record_key(ord, nv[b], by),
        desc,
    ) by {
        if b == p {
            assert(nv[a] == ov[a]);
        } else if a == p {
            assert(nv[b] == ov[b - 1]);
            lemma_key_le_laws(kx, record_key(ord, ov[b - 1], by), kx, desc);
        } else if b < p {
            assert(nv[a] == ov[a] && nv[b] == ov[b]);
        } else if a < p {
            assert(nv[a] == ov[a] && nv[b] == ov[b - 1]);
        } else {
            assert(nv[a] == ov[a - 1] && nv[b] == ov[b - 1]);
        }
    }
    assert forall|kk: Option<int>| with_key(nv, ord, by, kk) == with_key(prefix.push(x), ord, by, kk) by {
        let pred = |y: (Seq<char>, Seq<char>)| record_key(ord, y, by) == kk;
        Seq::filter_distributes_over_add(lo, hi, pred);
        Seq::filter_distributes_over_add(lo + seq![x], hi, pred);
        Seq::filter_distributes_over_add(lo, seq![x], pred);
        prefix.lemma_filter_push(x, pred);
        Seq::<(Seq<char>, Seq<char>)>::empty().lemma_filter_push(x, pred);
        assert(Seq::<(Seq<char>, Seq<char>)>::empty().push(x) =~= seq![x]);
        assert(Seq::<(Seq<char>, Seq<char>)>::empty().filter(pred) =~= Seq::empty()) by {
            reveal(Seq::filter);
        }
        assert(with_key(ov, ord, by, kk) == with_key(prefix, ord, by, kk));
        if kk == kx {
            assert forall|j: int| 0 <= j < hi.len() implies !pred(#[trigger] hi[j]) by {
                assert(hi[j] == ov[p + j]);
                lemma_key_le_laws(kx, kx, kx, desc);
            }
            hi.lemma_all_neg_filter_empty(pred);
            assert(hi.filter(pred) =~= Seq::empty());
            assert(with_key(nv, ord, by, kk) =~= lo.filter(pred).push(x));
            assert(with_key(ov, ord, by, kk) =~= lo.filter(pred));
        } else {
            assert(with_key(nv, ord, by, kk) =~= lo.filter(pred) + hi.filter(pred));
        }
    }
}

/// Orders stored records by `sort_by`, stably.
///
/// By name, records follow their catalog rank (ascending for `NameNew`,
/// descending for `NameOld`); by time, they follow their timestamp (newest
/// first for `TimeNew`, oldest first for `TimeOld`). Records whose rank is
/// unknown, or whose timestamp does not parse, come after all others, and
/// records with equal keys keep their input order.
pub fn sort_vers(vers: Vec<(String, String)>, order: &CatalogOrder, sort_by: SortBy) -> (r: Vec<
    (String, String),
>)
    ensures
        stably_sorted(record_views(r@), record_views(vers@), order@, sort_by),
{
    let ghost input = record_views(vers@);
    let ghost ord = order@;
    let desc = match sort_by {
        SortBy::NameOld | SortBy::TimeNew => true,
        _ => false,
    };
    let mut out: Vec<(String, String)> = Vec::new();
    let mut keys: Vec<Option<i128>> = Vec::new();
    let mut i: usize = 0;
    assert(record_views(out@) =~= input.subrange(0, 0));
    while i < vers.len()
        invariant
            i <= vers@.len(),
            input == record_views(vers@),
            ord == order@,
            desc == descending(sort_by),
            keys@.len() == out@.len(),
            forall|j: int|
                0 <= j < out@.len() ==> opt_int(#[trigger] keys@[j]) == record_key(
                    ord,
                    record_views(out@)[j],
                    sort_by,
                ),
            stably_sorted(record_views(out@), input.subrange(0, i as int), ord, sort_by),
        decreases vers.len() - i,
    {
        let ghost ov = record_views(out@);
        let ghost x = input[i as int];
        let k = key_of(order, &vers[i], sort_by);
        let ghost kx = opt_int(k);
        assert(kx == record_key(ord, x, sort_by));
        let mut p = out.len();
        while p > 0 && !key_le_exec(keys[p - 1], k, desc)
            invariant
                p <= out@.len() == keys@.len(),
                kx == opt_int(k),
                forall|j: int| p <= j < keys@.len() ==> !key_le(opt_int(#[trigger] keys@[j]), kx, desc),
            decreases p,
        {
            p = p - 1;
        }
        assert forall|j: int| 0 <= j < p implies key_le(
            record_key(ord, #[trigger] ov[j], sort_by),
            kx,
            desc,
        ) by {
            assert(opt_int(keys@[j]) == record_key(ord, ov[j], sort_by));
            assert(opt_int(keys@[p - 1]) == record_key(ord, ov[p - 1], sort_by));
            lemma_key_le_laws(opt_int(keys@[j]), opt_int(keys@[p - 1]), kx, desc);
        }
        assert forall|j: int| p <= j < ov.len() implies !key_le(
            record_key(ord, #[trigger] ov[j], sort_by),
            kx,
            desc,
        ) by {
            assert(opt_int(keys@[j]) == record_key(ord, ov[j], sort_by));
        }
        let ghost ok = keys@;
        let rec = (vers[i].0.clone(), vers[i].1.clone());
        out.insert(p, rec);
        keys.insert(p, k);
        proof {
            let nv = record_views(out@);
            assert(nv =~= ov.insert(p as int, x));
            assert(input.subrange(0, i + 1) =~= input.subrange(0, i as int).push(x));
            assert(keys@ =~= ok.insert(p as int, k));
            assert forall|j: int| 0 <= j < nv.len() implies opt_int(#[trigger] keys@[j])
                == record_key(ord, nv[j], sort_by) by {
                if j < p {
                    assert(keys@[j] == ok[j]);
                    assert(nv[j] == ov[j]);
                } else if j > p {
                    assert(keys@[j] == ok[j - 1]);
                    assert(nv[j] == ov[j - 1]);
                }
            }
            lemma_insert_step(ov, input.subrange(0, i as int), x, p as int, ord, sort_by);
        }
        i = i + 1;
    }
    assert(input.subrange(0, i as int) =~= input);
    out
}

/// The records whose name contains `pattern`, in order.
pub fn records_matching(recs: Vec<(String, String)>, pattern: &str) -> (r: Vec<(String, String)>)
    ensures
        record_views(r@) == record_views(recs@).filter(
            |x: (Seq<char>, Seq<char>)| has_infix(x.0, pattern@),
        ),
{
    let ghost all = record_views(recs@);
    let ghost pred = |x: (Seq<char>, Seq<char>)| has_infix(x.0, pattern@);
    let mut out: Vec<(String, String)> = Vec::new();
    let mut i: usize = 0;
    assert(all.subrange(0, 0).filter(pred) =~= Seq::empty()) by {
        reveal(Seq::filter);
    }
    while i < recs.len()
        invariant
            i <= recs@.len(),
            all == record_views(recs@),
            pred == (|x: (Seq<char>, Seq<char>)| has_infix(x.0, pattern@)),
            record_views(out@) == all.subrange(0, i as int).filter(pred),
        decreases recs.len() - i,
    {
        let ghost before = out@;
        let ghost x = all[i as int];
        assert(all.subrange(0, i + 1) =~= all.subrange(0, i as int).push(x));
        proof {
            all.subrange(0, i as int).lemma_filter_push(x, pred);
        }
        if contains_str(recs[i].0.as_str(), pattern) {
            let rec = (recs[i].0.clone(), recs[i].1.clone());
            out.push(rec);
            assert(record_views(out@) =~= record_views(before).push(x));
        }
        i = i + 1;
    }
    assert(all.subrange(0, i as int) =~= all);
    out
}

} // verus!
