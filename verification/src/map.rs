//! Lighting up the map: the visits of each city added up per province,
//! and telling cities abroad from places at home.
//!
//! Which official city and province a stored city name belongs to comes
//! from translation tables that the caller looks up; here the visits are
//! counted.
use vstd::prelude::*;

use crate::text::{
    ascii_chars, ascii_to_chars, chars_of, decimal_u64, ends_with, has_suffix, nat_decimal,
    string_of, string_views, text_less, text_lt,
};

verus! {

/// The query of the city map: the province's administrative code.
pub struct CityMapQuery {
    pub province: u32,
}

/// The suffixes of domestic administrative names.
pub open spec fn domestic_suffixes() -> Seq<Seq<char>> {
    seq!["市"@, "县"@, "区"@, "旗"@, "林区"@, "地区"@]
}

/// A city counts as abroad when its name has none of the domestic
/// administrative suffixes (the stored foreign cities are plain Chinese
/// renderings such as 东京 or 巴黎).
pub open spec fn overseas(city: Seq<char>) -> bool {
    !exists|i: int| 0 <= i < domestic_suffixes().len() && ends_with(city, #[trigger] domestic_suffixes()[i])
}

pub fn looks_overseas(city: &str) -> (r: bool)
    ensures
        r == overseas(city@),
{
    let c = chars_of(city);
    let suffixes = ["市", "县", "区", "旗", "林区", "地区"];
    assert(domestic_suffixes() =~= suffixes@.map_values(|s: &str| s@));
    for i in 0..suffixes.len()
        invariant
            c@ == city@,
            domestic_suffixes() == suffixes@.map_values(|s: &str| s@),
            forall|k: int| 0 <= k < i ==> !ends_with(city@, #[trigger] domestic_suffixes()[k]),
    {
        assert(domestic_suffixes()[i as int] == suffixes@[i as int]@);
        if has_suffix(&c, &chars_of(suffixes[i])) {
            return false;
        }
    }
    true
}

// ------------------------------------------------------------------ provinces

/// Where a stored city name lies on the map.
pub struct CityEntry {
    /// The name on the map (`杭州市`).
    pub official: String,
    pub adcode: u32,
    /// The province's administrative code.
    pub province: u32,
}

/// The moments of one stored city, with its place on the map when the
/// translation table knows it.
pub struct VisitedCity {
    pub city: String,
    pub visits: i64,
    pub first_at: Option<i128>,
    pub last_at: Option<i128>,
    pub entry: Option<CityEntry>,
}

/// One province lit up.
pub struct ProvinceLit {
    pub name: String,
    pub adcode: u32,
    /// How many of its cities were visited.
    pub cities: usize,
    pub visits: i64,
    pub last_at: Option<i128>,
}

pub struct ProvinceMapResponse {
    pub provinces: Vec<ProvinceLit>,
    pub total_provinces: usize,
    pub total_cities: usize,
    pub total_visits: i64,
    /// Cities abroad, which the map cannot show.
    pub overseas: Vec<String>,
    /// Cities neither on the map nor abroad.
    pub elsewhere: usize,
}

pub open spec fn in_province(r: VisitedCity, p: u32) -> bool {
    r.entry matches Some(e) && e.province == p
}

/// The later of two optional instants.
pub open spec fn latest(a: Option<i128>, b: Option<i128>) -> Option<i128> {
    match b {
        Some(x) => match a {
            Some(y) => if y > x {
                Some(y)
            } else {
                Some(x)
            },
            None => Some(x),
        },
        None => a,
    }
}

/// How many of the rows lie in province `p`.
pub open spec fn cities_in(rows: Seq<VisitedCity>, p: u32) -> int
    decreases rows.len(),
{
    if rows.len() == 0 {
        0
    } else {
        cities_in(rows.drop_last(), p) + if in_province(rows.last(), p) {
            1int
        } else {
            0int
        }
    }
}

/// The visits of the rows in province `p`.
pub open spec fn visits_in(rows: Seq<VisitedCity>, p: u32) -> int
    decreases rows.len(),
{
    if rows.len() == 0 {
        0
    } else {
        visits_in(rows.drop_last(), p) + if in_province(rows.last(), p) {
            rows.last().visits as int
        } else {
            0int
        }
    }
}

/// The latest visit among the rows in province `p`.
pub open spec fn last_in(rows: Seq<VisitedCity>, p: u32) -> Option<i128>
    decreases rows.len(),
{
    if rows.len() == 0 {
        None
    } else if in_province(rows.last(), p) {
        latest(last_in(rows.drop_last(), p), rows.last().last_at)
    } else {
        last_in(rows.drop_last(), p)
    }
}

/// `m` is the latest visit among the rows of province `p`: none when none
/// of them has a visit time, else a time one of them has and that none
/// exceeds.
pub open spec fn is_latest_visit(m: Option<i128>, rows: Seq<VisitedCity>, p: u32) -> bool {
    match m {
        None => forall|i: int|
            0 <= i < rows.len() && in_province(#[trigger] rows[i], p) ==> rows[i].last_at is None,
        Some(t) => {
            &&& forall|i: int|
                0 <= i < rows.len() && in_province(#[trigger] rows[i], p) && rows[i].last_at is Some
                    ==> rows[i].last_at->0 <= t
            &&& exists|i: int|
                0 <= i < rows.len() && in_province(#[trigger] rows[i], p) && rows[i].last_at == Some(t)
        },
    }
}

/// Law: a province's latest visit is the latest of its cities' latest
/// visits: no city of the province was visited later, and one of them was
/// visited then.
pub proof fn province_shows_latest_visit(rows: Seq<VisitedCity>, p: u32)
    ensures
        is_latest_visit(last_in(rows, p), rows, p),
    decreases rows.len(),
{
    if rows.len() > 0 {
        let prev = rows.drop_last();
        let x = rows.last();
        let n = rows.len() - 1;
        province_shows_latest_visit(prev, p);
        assert(forall|i: int| 0 <= i < n ==> prev[i] == rows[i]);
        assert(rows[n] == x);
        let l = last_in(prev, p);
        if in_province(x, p) {
            match l {
                Some(t) => {
                    let w = choose|i: int|
                        0 <= i < prev.len() && in_province(#[trigger] prev[i], p) && prev[i].last_at == Some(t);
                    assert(rows[w] == prev[w]);
                },
                None => {},
            }
        } else {
            match l {
                Some(t) => {
                    let w = choose|i: int|
                        0 <= i < prev.len() && in_province(#[trigger] prev[i], p) && prev[i].last_at == Some(t);
                    assert(rows[w] == prev[w]);
                },
                None => {},
            }
        }
    }
}

/// How many rows lie on the map.
pub open spec fn mapped_cities(rows: Seq<VisitedCity>) -> int
    decreases rows.len(),
{
    if rows.len() == 0 {
        0
    } else {
        mapped_cities(rows.drop_last()) + if rows.last().entry is Some {
            1int
        } else {
            0int
        }
    }
}

/// The visits of the rows on the map.
pub open spec fn mapped_visits(rows: Seq<VisitedCity>) -> int
    decreases rows.len(),
{
    if rows.len() == 0 {
        0
    } else {
        mapped_visits(rows.drop_last()) + if rows.last().entry is Some {
            rows.last().visits as int
        } else {
            0int
        }
    }
}

/// The names of the cities abroad, in row order.
pub open spec fn abroad(rows: Seq<VisitedCity>) -> Seq<Seq<char>>
    decreases rows.len(),
{
    if rows.len() == 0 {
        Seq::<Seq<char>>::empty()
    } else if rows.last().entry is None && overseas(rows.last().city@) {
        abroad(rows.drop_last()).push(rows.last().city@)
    } else {
        abroad(rows.drop_last())
    }
}

/// How many cities are neither on the map nor abroad.
pub open spec fn unplaced(rows: Seq<VisitedCity>) -> int
    decreases rows.len(),
{
    if rows.len() == 0 {
        0
    } else {
        unplaced(rows.drop_last()) + if rows.last().entry is None && !overseas(rows.last().city@) {
            1int
        } else {
            0int
        }
    }
}

/// The name of province `p`: that of the last pair with its code, else
/// the code itself.
pub open spec fn province_label(names: Seq<(u32, String)>, p: u32) -> Seq<char>
    decreases names.len(),
{
    if names.len() == 0 {
        ascii_chars(nat_decimal(p as nat))
    } else if names.last().0 == p {
        names.last().1@
    } else {
        province_label(names.drop_last(), p)
    }
}

/// Whether `lit` adds up the rows of its province.
pub open spec fn sums_up(lit: ProvinceLit, rows: Seq<VisitedCity>, names: Seq<(u32, String)>) -> bool {
    &&& lit.name@ == province_label(names, lit.adcode)
    &&& lit.cities == cities_in(rows, lit.adcode)
    &&& lit.visits == visits_in(rows, lit.adcode)
    &&& lit.last_at == last_in(rows, lit.adcode)
    &&& lit.cities >= 1
}

/// Whether province `a` is shown before `b`: more visits first, then by
/// name.
pub open spec fn brighter(a: ProvinceLit, b: ProvinceLit) -> bool {
    a.visits > b.visits || (a.visits == b.visits && text_lt(a.name@, b.name@))
}

pub open spec fn sum_visits(ps: Seq<ProvinceLit>) -> int
    decreases ps.len(),
{
    if ps.len() == 0 {
        0
    } else {
        sum_visits(ps.drop_last()) + ps.last().visits as int
    }
}

pub open spec fn sum_cities(ps: Seq<ProvinceLit>) -> int
    decreases ps.len(),
{
    if ps.len() == 0 {
        0
    } else {
        sum_cities(ps.drop_last()) + ps.last().cities as int
    }
}

pub open spec fn visits_ok(rows: Seq<VisitedCity>) -> bool {
    &&& forall|i: int| 0 <= i < rows.len() ==> #[trigger] rows[i].visits >= 0
    &&& mapped_visits(rows) <= i64::MAX
}

proof fn lemma_prefix_sums(rows: Seq<VisitedCity>, n: int, p: u32)
    requires
        0 <= n <= rows.len(),
        forall|i: int| 0 <= i < rows.len() ==> #[trigger] rows[i].visits >= 0,
    ensures
        0 <= visits_in(rows.take(n), p) <= mapped_visits(rows.take(n)) <= mapped_visits(rows),
        0 <= cities_in(rows.take(n), p) <= mapped_cities(rows.take(n)) <= n,
    decreases rows.len() - n,
{
    let t = rows.take(n);
    assert forall|i: int| 0 <= i < t.len() implies #[trigger] t[i].visits >= 0 by {
        assert(t[i] == rows[i]);
    }
    lemma_sums_bounded(t, p);
    if n < rows.len() {
        lemma_prefix_sums(rows, n + 1, p);
        assert(rows.take(n + 1).drop_last() =~= t);
        assert(rows.take(n + 1).last() == rows[n]);
    } else {
        assert(t =~= rows);
    }
}

proof fn lemma_sums_bounded(rows: Seq<VisitedCity>, p: u32)
    requires
        forall|i: int| 0 <= i < rows.len() ==> #[trigger] rows[i].visits >= 0,
    ensures
        0 <= visits_in(rows, p) <= mapped_visits(rows),
        0 <= cities_in(rows, p) <= mapped_cities(rows) <= rows.len(),
    decreases rows.len(),
{
    if rows.len() > 0 {
        let d = rows.drop_last();
        assert forall|i: int| 0 <= i < d.len() implies #[trigger] d[i].visits >= 0 by {
            assert(d[i] == rows[i]);
        }
        lemma_sums_bounded(d, p);
        assert(rows.last() == rows[rows.len() - 1]);
    }
}

proof fn lemma_absent_province(rows: Seq<VisitedCity>, p: u32)
    requires
        forall|i: int| 0 <= i < rows.len() ==> !in_province(#[trigger] rows[i], p),
    ensures
        cities_in(rows, p) == 0,
        visits_in(rows, p) == 0,
        last_in(rows, p) is None,
    decreases rows.len(),
{
    if rows.len() > 0 {
        let d = rows.drop_last();
        assert forall|i: int| 0 <= i < d.len() implies !in_province(#[trigger] d[i], p) by {
            assert(d[i] == rows[i]);
        }
        lemma_absent_province(d, p);
        assert(!in_province(rows[rows.len() - 1], p));
    }
}

fn province_name(names: &[(u32, String)], p: u32) -> (name: String)
    ensures
        name@ == province_label(names@, p),
{
    let mut i = names.len();
    assert(names@.take(i as int) =~= names@);
    while i > 0
        invariant
            i <= names@.len(),
            province_label(names@, p) == province_label(names@.take(i as int), p),
        decreases i,
    {
        assert(names@.take(i as int).drop_last() =~= names@.take(i - 1));
        assert(names@.take(i as int).last() == names@[i - 1]);
        if names[i - 1].0 == p {
            return string_of(&chars_of(names[i - 1].1.as_str()));
        }
        i = i - 1;
    }
    assert(names@.take(0) =~= Seq::<(u32, String)>::empty());
    string_of(&ascii_to_chars(&decimal_u64(p as u64)))
}

fn later(a: Option<i128>, b: Option<i128>) -> (r: Option<i128>)
    ensures
        r == latest(a, b),
{
    match b {
        Some(x) => match a {
            Some(y) => if y > x {
                Some(y)
            } else {
                Some(x)
            },
            None => Some(x),
        },
        None => a,
    }
}

/// Adds the rows up per province (in order of first appearance), and
/// sorts out the rows off the map.
fn tally(rows: &[VisitedCity], names: &[(u32, String)]) -> (r: (Vec<ProvinceLit>, Vec<String>, usize, usize, i64))
    requires
        visits_ok(rows@),
    ensures
        forall|q: int| 0 <= q < r.0@.len() ==> sums_up(#[trigger] r.0@[q], rows@, names@),
        forall|q: int, j: int|
            0 <= q < j < r.0@.len() ==> #[trigger] r.0@[q].adcode != #[trigger] r.0@[j].adcode,
        forall|i: int|
            0 <= i < rows@.len() && #[trigger] rows@[i].entry is Some ==> exists|q: int|
                0 <= q < r.0@.len() && #[trigger] r.0@[q].adcode == rows@[i].entry->0.province,
        sum_visits(r.0@) == mapped_visits(rows@),
        sum_cities(r.0@) == mapped_cities(rows@),
        string_views(r.1@) == abroad(rows@),
        r.2 == unplaced(rows@),
        r.3 == mapped_cities(rows@),
        r.4 == mapped_visits(rows@),
{
    let mut acc: Vec<ProvinceLit> = Vec::new();
    let mut far: Vec<String> = Vec::new();
    let mut elsewhere: usize = 0;
    let mut total_cities: usize = 0;
    let mut total_visits: i64 = 0;
    let ghost all = rows@;
    assert(all.take(0) =~= Seq::<VisitedCity>::empty());
    for k in 0..rows.len()
        invariant
            all == rows@,
            visits_ok(all),
            forall|q: int| 0 <= q < acc@.len() ==> sums_up(#[trigger] acc@[q], all.take(k as int), names@),
            forall|q: int, j: int|
                0 <= q < j < acc@.len() ==> #[trigger] acc@[q].adcode != #[trigger] acc@[j].adcode,
            forall|i: int|
                0 <= i < k && #[trigger] all[i].entry is Some ==> exists|q: int|
                    0 <= q < acc@.len() && #[trigger] acc@[q].adcode == all[i].entry->0.province,
            sum_visits(acc@) == mapped_visits(all.take(k as int)),
            sum_cities(acc@) == mapped_cities(all.take(k as int)),
            string_views(far@) == abroad(all.take(k as int)),
            elsewhere == unplaced(all.take(k as int)),
            total_cities == mapped_cities(all.take(k as int)),
            total_visits == mapped_visits(all.take(k as int)),
            elsewhere <= k,
    {
        let row = &rows[k];
        let ghost pre = all.take(k as int);
        let ghost post = all.take(k + 1);
        assert(post.drop_last() =~= pre);
        assert(post.last() == all[k as int]);
        assert(*row == all[k as int]);
        proof {
            lemma_prefix_sums(all, k + 1, 0);
            lemma_prefix_sums(all, k as int, 0);
        }
        match &row.entry {
            None => {
                if looks_overseas(row.city.as_str()) {
                    let ghost before = far@;
                    far.push(string_of(&chars_of(row.city.as_str())));
                    assert(string_views(far@) =~= string_views(before).push(row.city@));
                } else {
                    elsewhere = elsewhere + 1;
                }
                // the provinces do not change
                assert forall|q: int| 0 <= q < acc@.len() implies sums_up(#[trigger] acc@[q], post, names@) by {
                    assert(!in_province(post.last(), acc@[q].adcode));
                }
            },
            Some(e) => {
                let p = e.province;
                total_cities = total_cities + 1;
                total_visits = total_visits + row.visits;
                let mut q: usize = 0;
                while q < acc.len() && acc[q].adcode != p
                    invariant
                        q <= acc@.len(),
                        forall|j: int| 0 <= j < q ==> #[trigger] acc@[j].adcode != p,
                    decreases acc@.len() - q,
                {
                    q = q + 1;
                }
                proof {
                    lemma_prefix_sums(all, k + 1, p);
                }
                if q < acc.len() {
                    let ghost old_acc = acc@;
                    let old = &acc[q];
                    let cities = old.cities + 1;
                    let visits = old.visits + row.visits;
                    let last_at = later(old.last_at, row.last_at);
                    let name = string_of(&chars_of(old.name.as_str()));
                    let lit = ProvinceLit { name, adcode: p, cities, visits, last_at };
                    acc.set(q, lit);
                    assert forall|j: int| 0 <= j < acc@.len() implies sums_up(#[trigger] acc@[j], post, names@) by {
                        if j != q {
                            assert(acc@[j] == old_acc[j]);
                            assert(!in_province(post.last(), acc@[j].adcode));
                        }
                    }
                    assert forall|i: int| 0 <= i < k + 1 && #[trigger] all[i].entry is Some implies exists|j: int|
                        0 <= j < acc@.len() && #[trigger] acc@[j].adcode == all[i].entry->0.province by {
                        if i < k {
                            let j = choose|j: int| 0 <= j < old_acc.len() && #[trigger] old_acc[j].adcode == all[i].entry->0.province;
                            assert(acc@[j].adcode == old_acc[j].adcode);
                        } else {
                            assert(acc@[q as int].adcode == p);
                        }
                    }
                    proof {
                        lemma_sum_set(old_acc, q as int, acc@[q as int]);
                    }
                } else {
                    proof {
                        assert forall|i: int| 0 <= i < pre.len() implies !in_province(#[trigger] pre[i], p) by {
                            if in_province(pre[i], p) {
                                assert(all[i] == pre[i]);
                                assert(all[i].entry is Some);
                                let j = choose|j: int| 0 <= j < acc@.len() && #[trigger] acc@[j].adcode == all[i].entry->0.province;
                                assert(acc@[j].adcode != p);
                            }
                        }
                        lemma_absent_province(pre, p);
                    }
                    let ghost old_acc = acc@;
                    let name = province_name(names, p);
                    let last_at = later(None, row.last_at);
                    acc.push(ProvinceLit { name, adcode: p, cities: 1, visits: row.visits, last_at });
                    assert forall|j: int| 0 <= j < acc@.len() implies sums_up(#[trigger] acc@[j], post, names@) by {
                        if j < old_acc.len() {
                            assert(acc@[j] == old_acc[j]);
                            assert(!in_province(post.last(), acc@[j].adcode));
                        }
                    }
                    assert forall|i: int| 0 <= i < k + 1 && #[trigger] all[i].entry is Some implies exists|j: int|
                        0 <= j < acc@.len() && #[trigger] acc@[j].adcode == all[i].entry->0.province by {
                        if i < k {
                            let j = choose|j: int| 0 <= j < old_acc.len() && #[trigger] old_acc[j].adcode == all[i].entry->0.province;
                            assert(acc@[j].adcode == old_acc[j].adcode);
                        } else {
                            assert(acc@[old_acc.len() as int].adcode == p);
                        }
                    }
                    assert(acc@.drop_last() =~= old_acc);
                }
            },
        }
    }
    assert(all.take(rows@.len() as int) =~= all);
    (acc, far, elsewhere, total_cities, total_visits)
}

proof fn lemma_sum_set(ps: Seq<ProvinceLit>, q: int, x: ProvinceLit)
    requires
        0 <= q < ps.len(),
    ensures
        sum_visits(ps.update(q, x)) == sum_visits(ps) - ps[q].visits + x.visits,
        sum_cities(ps.update(q, x)) == sum_cities(ps) - ps[q].cities + x.cities,
    decreases ps.len(),
{
    let u = ps.update(q, x);
    if q == ps.len() - 1 {
        assert(u.drop_last() =~= ps.drop_last());
    } else {
        lemma_sum_set(ps.drop_last(), q, x);
        assert(u.drop_last() =~= ps.drop_last().update(q, x));
    }
}

proof fn lemma_brighter_transitive(a: ProvinceLit, b: ProvinceLit, c: ProvinceLit)
    requires
        brighter(a, b),
        brighter(b, c),
    ensures
        brighter(a, c),
{
    if a.visits == b.visits && b.visits == c.visits {
        crate::text::lemma_text_lt_transitive(a.name@, b.name@, c.name@);
    }
}

proof fn lemma_sum_insert(ps: Seq<ProvinceLit>, p: int, x: ProvinceLit)
    requires
        0 <= p <= ps.len(),
    ensures
        sum_visits(ps.insert(p, x)) == sum_visits(ps) + x.visits,
        sum_cities(ps.insert(p, x)) == sum_cities(ps) + x.cities,
    decreases ps.len(),
{
    let u = ps.insert(p, x);
    if p == ps.len() {
        assert(u.drop_last() =~= ps);
    } else {
        lemma_sum_insert(ps.drop_last(), p, x);
        assert(u.drop_last() =~= ps.drop_last().insert(p, x));
    }
}

proof fn lemma_sum_push(ps: Seq<ProvinceLit>, x: ProvinceLit)
    ensures
        sum_visits(ps.push(x)) == sum_visits(ps) + x.visits,
        sum_cities(ps.push(x)) == sum_cities(ps) + x.cities,
{
    assert(ps.push(x).drop_last() =~= ps);
}

/// Whether `p` goes before `q`: more visits, or as many and a name that
/// orders first.
fn goes_first(p: &ProvinceLit, q: &ProvinceLit) -> (r: bool)
    ensures
        r == brighter(*p, *q),
{
    p.visits > q.visits || (p.visits == q.visits && text_less(
        &chars_of(p.name.as_str()),
        &chars_of(q.name.as_str()),
    ))
}

/// `idx` says where each element of `out` comes from in `src`, and `pos`
/// where each element of `src` went in `out`.
pub open spec fn rearranged(out: Seq<ProvinceLit>, src: Seq<ProvinceLit>, idx: Seq<int>, pos: Seq<int>) -> bool {
    &&& out.len() == src.len()
    &&& idx.len() == out.len()
    &&& pos.len() == src.len()
    &&& forall|q: int| 0 <= q < out.len() ==> 0 <= #[trigger] idx[q] < src.len() && out[q] == src[idx[q]]
    &&& forall|j: int| 0 <= j < src.len() ==> 0 <= #[trigger] pos[j] < out.len() && out[pos[j]] == src[j]
}

pub open spec fn distinct_codes(s: Seq<ProvinceLit>) -> bool {
    forall|q: int, j: int| 0 <= q < j < s.len() ==> #[trigger] s[q].adcode != #[trigger] s[j].adcode
}

pub open spec fn brightest_first(s: Seq<ProvinceLit>) -> bool {
    forall|q: int, j: int| 0 <= q < j < s.len() ==> !brighter(#[trigger] s[j], #[trigger] s[q])
}

proof fn lemma_insert_rearranged(
    out: Seq<ProvinceLit>,
    taken: Seq<ProvinceLit>,
    idx: Seq<int>,
    pos: Seq<int>,
    p: int,
    x: ProvinceLit,
)
    requires
        0 <= p <= out.len(),
        rearranged(out, taken, idx, pos),
    ensures
        rearranged(
            out.insert(p, x),
            taken.push(x),
            idx.insert(p, taken.len() as int),
            pos.map_values(|v: int| if v >= p { v + 1 } else { v }).push(p),
        ),
{
    let n = out.insert(p, x);
    let t = taken.push(x);
    let i2 = idx.insert(p, taken.len() as int);
    let p2 = pos.map_values(|v: int| if v >= p { v + 1 } else { v }).push(p);
    assert forall|q: int| 0 <= q < n.len() implies 0 <= #[trigger] i2[q] < t.len() && n[q] == t[i2[q]] by {
        if q < p {
            assert(i2[q] == idx[q]);
        } else if q > p {
            assert(i2[q] == idx[q - 1]);
        }
    }
    assert forall|j: int| 0 <= j < t.len() implies 0 <= #[trigger] p2[j] < n.len() && n[p2[j]] == t[j] by {
        if j < taken.len() {
            assert(p2[j] == if pos[j] >= p { pos[j] + 1 } else { pos[j] });
        }
    }
}

proof fn lemma_insert_distinct(out: Seq<ProvinceLit>, p: int, x: ProvinceLit)
    requires
        0 <= p <= out.len(),
        distinct_codes(out),
        forall|q: int| 0 <= q < out.len() ==> #[trigger] out[q].adcode != x.adcode,
    ensures
        distinct_codes(out.insert(p, x)),
{
    let n = out.insert(p, x);
    assert forall|q: int, j: int| 0 <= q < j < n.len() implies #[trigger] n[q].adcode != #[trigger] n[j].adcode by {
        if j < p {
        } else if j == p {
            assert(n[q] == out[q]);
        } else if q == p {
            assert(n[j] == out[j - 1]);
        } else if q < p {
            assert(n[j] == out[j - 1]);
        } else {
            assert(n[q] == out[q - 1]);
            assert(n[j] == out[j - 1]);
        }
    }
}

proof fn lemma_insert_sorted(out: Seq<ProvinceLit>, p: int, x: ProvinceLit)
    requires
        0 <= p <= out.len(),
        brightest_first(out),
        forall|q: int| 0 <= q < p ==> !brighter(x, #[trigger] out[q]),
        p < out.len() ==> brighter(x, out[p]),
    ensures
        brightest_first(out.insert(p, x)),
{
    let n = out.insert(p, x);
    assert forall|q: int, j: int| 0 <= q < j < n.len() implies !brighter(#[trigger] n[j], #[trigger] n[q]) by {
        if j < p {
        } else if j == p {
            assert(n[q] == out[q]);
        } else if q == p {
            let c = out[j - 1];
            assert(n[j] == c);
            if brighter(c, x) {
                if j - 1 > p {
                    assert(!brighter(out[j - 1], out[p]));
                }
                crate::text::lemma_text_lt_irreflexive(out[p].name@);
                lemma_brighter_transitive(c, x, out[p]);
            }
        } else if q < p {
            assert(n[j] == out[j - 1]);
        } else {
            assert(n[q] == out[q - 1]);
            assert(n[j] == out[j - 1]);
        }
    }
}

/// The provinces, brightest first.
fn sort_provinces(ps: Vec<ProvinceLit>) -> (r: (Vec<ProvinceLit>, Ghost<Seq<int>>, Ghost<Seq<int>>))
    requires
        distinct_codes(ps@),
    ensures
        rearranged(r.0@, ps@, r.1@, r.2@),
        distinct_codes(r.0@),
        brightest_first(r.0@),
        sum_visits(r.0@) == sum_visits(ps@),
        sum_cities(r.0@) == sum_cities(ps@),
{
    let ghost all = ps@;
    let mut rest = ps;
    let mut out: Vec<ProvinceLit> = Vec::new();
    let ghost mut taken: Seq<ProvinceLit> = Seq::empty();
    let ghost mut idx: Seq<int> = Seq::empty();
    let ghost mut pos: Seq<int> = Seq::empty();
    assert(taken + rest@ =~= all);
    while rest.len() > 0
        invariant
            taken + rest@ == all,
            distinct_codes(all),
            rearranged(out@, taken, idx, pos),
            distinct_codes(out@),
            brightest_first(out@),
            sum_visits(out@) == sum_visits(taken),
            sum_cities(out@) == sum_cities(taken),
        decreases rest@.len(),
    {
        let ghost before_rest = rest@;
        let x = rest.remove(0);
        assert(x == all[taken.len() as int]) by {
            assert(before_rest[0] == all[taken.len() as int]);
        }
        let mut p: usize = 0;
        while p < out.len() && !goes_first(&x, &out[p])
            invariant
                p <= out@.len(),
                forall|q: int| 0 <= q < p ==> !brighter(x, #[trigger] out@[q]),
            decreases out@.len() - p,
        {
            p = p + 1;
        }
        let ghost old_out = out@;
        proof {
            assert forall|q: int| 0 <= q < old_out.len() implies #[trigger] old_out[q].adcode != x.adcode by {
                assert(taken[idx[q]] == all[idx[q]]);
            }
            lemma_sum_insert(old_out, p as int, x);
            lemma_sum_push(taken, x);
            lemma_insert_rearranged(old_out, taken, idx, pos, p as int, x);
            lemma_insert_distinct(old_out, p as int, x);
            lemma_insert_sorted(old_out, p as int, x);
        }
        out.insert(p, x);
        assert(out@ =~= old_out.insert(p as int, x));
        proof {
            idx = idx.insert(p as int, taken.len() as int);
            pos = pos.map_values(|v: int| if v >= p { v + 1 } else { v }).push(p as int);
            taken = taken.push(x);
        }
        assert(taken + rest@ =~= all) by {
            assert(before_rest.drop_first() =~= rest@);
        }
    }
    assert(taken =~= all);
    (out, Ghost(idx), Ghost(pos))
}

proof fn lemma_sorted_provinces(
    acc: Seq<ProvinceLit>,
    provinces: Seq<ProvinceLit>,
    idx: Seq<int>,
    pos: Seq<int>,
    rows: Seq<VisitedCity>,
    names: Seq<(u32, String)>,
)
    requires
        rearranged(provinces, acc, idx, pos),
        forall|q: int| 0 <= q < acc.len() ==> sums_up(#[trigger] acc[q], rows, names),
        forall|i: int|
            0 <= i < rows.len() && #[trigger] rows[i].entry is Some ==> exists|q: int|
                0 <= q < acc.len() && #[trigger] acc[q].adcode == rows[i].entry->0.province,
    ensures
        forall|q: int| 0 <= q < provinces.len() ==> sums_up(#[trigger] provinces[q], rows, names),
        forall|i: int|
            0 <= i < rows.len() && #[trigger] rows[i].entry is Some ==> exists|q: int|
                0 <= q < provinces.len() && #[trigger] provinces[q].adcode == rows[i].entry->0.province,
{
    assert forall|q: int| 0 <= q < provinces.len() implies sums_up(#[trigger] provinces[q], rows, names) by {
        assert(sums_up(acc[idx[q]], rows, names));
    }
    assert forall|i: int|
        0 <= i < rows.len() && #[trigger] rows[i].entry is Some implies exists|q: int|
            0 <= q < provinces.len() && #[trigger] provinces[q].adcode == rows[i].entry->0.province by {
        let j = choose|j: int| 0 <= j < acc.len() && #[trigger] acc[j].adcode == rows[i].entry->0.province;
        assert(provinces[pos[j]] == acc[j]);
    }
}

/// Names in the order of `str`, each as often as it comes.
fn by_name(names: &Vec<String>) -> (r: Vec<String>)
    ensures
        r@.len() == names@.len(),
        exists|order: Seq<usize>|
            crate::backup::is_permutation_of(order, names@.len() as int) && (forall|i: int|
                0 <= i < order.len() ==> #[trigger] r@[i]@ == string_views(names@)[order[i] as int])
                && (forall|i: int, j: int|
                0 <= i < j < order.len() ==> crate::backup::name_before(
                    string_views(names@),
                    false,
                    #[trigger] order[i] as int,
                    #[trigger] order[j] as int,
                )),
{
    let order = crate::backup::order_by_name(names.as_slice(), false);
    let mut out: Vec<String> = Vec::new();
    for i in 0..order.len()
        invariant
            crate::backup::is_permutation_of(order@, names@.len() as int),
            out@.len() == i,
            forall|k: int| 0 <= k < i ==> #[trigger] out@[k]@ == names@[order@[k] as int]@,
    {
        let k = order[i];
        out.push(string_of(&chars_of(names[k].as_str())));
    }
    let ghost views = string_views(names@);
    assert forall|i: int| 0 <= i < order@.len() implies #[trigger] out@[i]@ == views[order@[i] as int] by {
        assert(views[order@[i] as int] == names@[order@[i] as int]@);
    }
    out
}

/// The province map: every province with a visited city, brightest first,
/// with its visited cities, visits and latest visit; the totals; the
/// cities abroad in order of their names; how many cities are neither.
pub fn light_provinces(rows: &[VisitedCity], names: &[(u32, String)]) -> (r: ProvinceMapResponse)
    requires
        visits_ok(rows@),
    ensures
        forall|q: int| 0 <= q < r.provinces@.len() ==> sums_up(#[trigger] r.provinces@[q], rows@, names@),
        forall|q: int|
            0 <= q < r.provinces@.len() ==> is_latest_visit(
                #[trigger] r.provinces@[q].last_at,
                rows@,
                r.provinces@[q].adcode,
            ),
        forall|q: int, j: int|
            0 <= q < j < r.provinces@.len() ==> #[trigger] r.provinces@[q].adcode
                != #[trigger] r.provinces@[j].adcode,
        forall|i: int|
            0 <= i < rows@.len() && #[trigger] rows@[i].entry is Some ==> exists|q: int|
                0 <= q < r.provinces@.len() && #[trigger] r.provinces@[q].adcode
                    == rows@[i].entry->0.province,
        forall|q: int, j: int|
            0 <= q < j < r.provinces@.len() ==> !brighter(#[trigger] r.provinces@[j], #[trigger] r.provinces@[q]),
        r.total_provinces == r.provinces@.len(),
        r.total_cities == mapped_cities(rows@),
        r.total_visits == mapped_visits(rows@),
        sum_visits(r.provinces@) == r.total_visits,
        sum_cities(r.provinces@) == r.total_cities,
        r.elsewhere == unplaced(rows@),
        r.overseas@.len() == abroad(rows@).len(),
        exists|order: Seq<usize>|
            crate::backup::is_permutation_of(order, abroad(rows@).len() as int) && (forall|i: int|
                0 <= i < order.len() ==> #[trigger] r.overseas@[i]@ == abroad(rows@)[order[i] as int])
                && (forall|i: int, j: int|
                0 <= i < j < order.len() ==> crate::backup::name_before(
                    abroad(rows@),
                    false,
                    #[trigger] order[i] as int,
                    #[trigger] order[j] as int,
                )),
{
    let (acc, far, elsewhere, total_cities, total_visits) = tally(rows, names);
    let ghost acc_view = acc@;
    let (provinces, Ghost(idx), Ghost(pos)) = sort_provinces(acc);
    proof {
        lemma_sorted_provinces(acc_view, provinces@, idx, pos, rows@, names@);
    }
    let overseas = by_name(&far);
    let total_provinces = provinces.len();
    proof {
        assert forall|q: int| 0 <= q < provinces@.len() implies is_latest_visit(
            #[trigger] provinces@[q].last_at,
            rows@,
            provinces@[q].adcode,
        ) by {
            assert(sums_up(provinces@[q], rows@, names@));
            province_shows_latest_visit(rows@, provinces@[q].adcode);
        }
    }
    ProvinceMapResponse { provinces, total_provinces, total_cities, total_visits, overseas, elsewhere }
}

// ------------------------------------------------------------------ cities

/// One city lit up.
pub struct CityLit {
    /// The stored name (`杭州`).
    pub name: String,
    /// The name on the map (`杭州市`).
    pub map_name: String,
    pub adcode: u32,
    pub visits: i64,
    pub first_at: Option<i128>,
    pub last_at: Option<i128>,
}

pub struct CityMapResponse {
    pub province: u32,
    pub name: String,
    pub cities: Vec<CityLit>,
}

/// The rows of province `p`, in order.
pub open spec fn rows_of(rows: Seq<VisitedCity>, p: u32) -> Seq<VisitedCity>
    decreases rows.len(),
{
    if rows.len() == 0 {
        Seq::<VisitedCity>::empty()
    } else if in_province(rows.last(), p) {
        rows_of(rows.drop_last(), p).push(rows.last())
    } else {
        rows_of(rows.drop_last(), p)
    }
}

/// Whether row `a` is listed before row `b`: more visits first, then by
/// name, then in the order given.
pub open spec fn city_before(rows: Seq<VisitedCity>, a: int, b: int) -> bool {
    if rows[a].visits != rows[b].visits {
        rows[a].visits > rows[b].visits
    } else if rows[a].city@ != rows[b].city@ {
        text_lt(rows[a].city@, rows[b].city@)
    } else {
        a < b
    }
}

/// Whether `lit` shows row `r`.
pub open spec fn shows_city(lit: CityLit, r: VisitedCity) -> bool {
    &&& r.entry is Some
    &&& lit.name@ == r.city@
    &&& lit.map_name@ == r.entry->0.official@
    &&& lit.adcode == r.entry->0.adcode
    &&& lit.visits == r.visits
    &&& lit.first_at == r.first_at
    &&& lit.last_at == r.last_at
}

proof fn lemma_city_before_total(rows: Seq<VisitedCity>, a: int, b: int)
    requires
        a != b,
    ensures
        city_before(rows, a, b) || city_before(rows, b, a),
{
    crate::text::lemma_text_lt_total(rows[a].city@, rows[b].city@);
}

proof fn lemma_city_before_transitive(rows: Seq<VisitedCity>, a: int, b: int, c: int)
    requires
        city_before(rows, a, b),
        city_before(rows, b, c),
    ensures
        city_before(rows, a, c),
{
    crate::text::lemma_text_lt_irreflexive(rows[a].city@);
    crate::text::lemma_text_lt_irreflexive(rows[b].city@);
    crate::text::lemma_text_lt_irreflexive(rows[c].city@);
    if rows[a].visits == rows[b].visits && rows[b].visits == rows[c].visits {
        if rows[a].city@ != rows[b].city@ && rows[b].city@ != rows[c].city@ {
            crate::text::lemma_text_lt_transitive(rows[a].city@, rows[b].city@, rows[c].city@);
        }
    }
}

fn row_goes_before(a: &VisitedCity, b: &VisitedCity) -> (r: bool)
    ensures
        r == (a.visits > b.visits || (a.visits == b.visits && text_lt(a.city@, b.city@))),
{
    a.visits > b.visits || (a.visits == b.visits && text_less(
        &chars_of(a.city.as_str()),
        &chars_of(b.city.as_str()),
    ))
}

/// The order in which rows are listed (a stable sort by `city_before`).
fn order_cities(rows: &Vec<&VisitedCity>) -> (order: Vec<usize>)
    ensures
        crate::backup::is_permutation_of(order@, rows@.len() as int),
        forall|i: int, j: int|
            0 <= i < j < order@.len() ==> city_before(
                rows@.map_values(|r: &VisitedCity| *r),
                #[trigger] order@[i] as int,
                #[trigger] order@[j] as int,
            ),
{
    let ghost keys = rows@.map_values(|r: &VisitedCity| *r);
    let mut order: Vec<usize> = Vec::new();
    for k in 0..rows.len()
        invariant
            keys == rows@.map_values(|r: &VisitedCity| *r),
            crate::backup::is_permutation_of(order@, k as int),
            forall|i: int, j: int|
                0 <= i < j < order@.len() ==> city_before(
                    keys,
                    #[trigger] order@[i] as int,
                    #[trigger] order@[j] as int,
                ),
    {
        let x = rows[k];
        assert(*x == keys[k as int]);
        let mut p: usize = 0;
        while p < order.len() && !row_goes_before(x, rows[order[p]])
            invariant
                keys == rows@.map_values(|r: &VisitedCity| *r),
                *x == keys[k as int],
                k < rows@.len(),
                crate::backup::is_permutation_of(order@, k as int),
                p <= order@.len(),
                forall|q: int| 0 <= q < p ==> !city_before(keys, k as int, #[trigger] order@[q] as int),
            decreases order@.len() - p,
        {
            let ghost b = order@[p as int] as int;
            assert(b < k);
            assert(*rows@[b] == keys[b]);
            p = p + 1;
        }
        let ghost old_order = order@;
        proof {
            if p < old_order.len() {
                let b = old_order[p as int] as int;
                assert(b < k);
                assert(*rows@[b] == keys[b]);
                crate::text::lemma_text_lt_irreflexive(keys[k as int].city@);
                assert(city_before(keys, k as int, b));
            }
        }
        order.insert(p, k);
        assert(order@ =~= old_order.insert(p as int, k));
        assert forall|i: int| 0 <= i < k + 1 implies #[trigger] order@[i] < k + 1 by {
            if i < p {
                assert(order@[i] == old_order[i]);
            } else if i > p {
                assert(order@[i] == old_order[i - 1]);
            }
        }
        assert forall|i: int, j: int| 0 <= i < j < k + 1 implies #[trigger] order@[i]
            != #[trigger] order@[j] by {
            if i < p && j < p {
            } else if i < p && j == p {
            } else if i < p {
                assert(order@[j] == old_order[j - 1]);
            } else if i == p {
                assert(order@[j] == old_order[j - 1]);
            } else {
                assert(order@[i] == old_order[i - 1]);
                assert(order@[j] == old_order[j - 1]);
            }
        }
        assert forall|i: int, j: int| 0 <= i < j < order@.len() implies city_before(
            keys,
            #[trigger] order@[i] as int,
            #[trigger] order@[j] as int,
        ) by {
            if j < p {
                assert(order@[i] == old_order[i]);
                assert(order@[j] == old_order[j]);
            } else if j == p {
                assert(order@[i] == old_order[i]);
                let a = old_order[i] as int;
                assert(!city_before(keys, k as int, a));
                lemma_city_before_total(keys, k as int, a);
            } else if i == p {
                let c = old_order[j - 1] as int;
                assert(order@[j] == c);
                let b = old_order[p as int] as int;
                if j - 1 > p {
                    assert(city_before(keys, b, c));
                    lemma_city_before_transitive(keys, k as int, b, c);
                }
            } else if i < p {
                assert(order@[i] == old_order[i]);
                assert(order@[j] == old_order[j - 1]);
            } else {
                assert(order@[i] == old_order[i - 1]);
                assert(order@[j] == old_order[j - 1]);
            }
        }
    }
    order
}

/// The cities of one province: its name, and its visited cities, most
/// visited first (then by name, then in the order given).
pub fn light_cities(province: u32, rows: &[VisitedCity], names: &[(u32, String)]) -> (r: CityMapResponse)
    ensures
        r.province == province,
        r.name@ == province_label(names@, province),
        r.cities@.len() == rows_of(rows@, province).len(),
        exists|order: Seq<usize>|
            crate::backup::is_permutation_of(order, rows_of(rows@, province).len() as int) && (
            forall|i: int|
                0 <= i < order.len() ==> shows_city(
                    #[trigger] r.cities@[i],
                    rows_of(rows@, province)[order[i] as int],
                )) && (forall|i: int, j: int|
                0 <= i < j < order.len() ==> city_before(
                    rows_of(rows@, province),
                    #[trigger] order[i] as int,
                    #[trigger] order[j] as int,
                )),
{
    let mut picked: Vec<&VisitedCity> = Vec::new();
    let ghost all = rows@;
    assert(all.take(0) =~= Seq::<VisitedCity>::empty());
    for k in 0..rows.len()
        invariant
            all == rows@,
            picked@.map_values(|r: &VisitedCity| *r) == rows_of(all.take(k as int), province),
    {
        let row = &rows[k];
        assert(all.take(k + 1).drop_last() =~= all.take(k as int));
        assert(all.take(k + 1).last() == *row);
        let inside = match &row.entry {
            Some(e) => e.province == province,
            None => false,
        };
        if inside {
            let ghost before = picked@;
            picked.push(row);
            assert(picked@.map_values(|r: &VisitedCity| *r) =~= before.map_values(
                |r: &VisitedCity| *r,
            ).push(*row));
        }
    }
    assert(all.take(rows@.len() as int) =~= all);
    let ghost sel = picked@.map_values(|r: &VisitedCity| *r);
    proof {
        assert forall|k: int| 0 <= k < sel.len() implies in_province(#[trigger] sel[k], province) by {
            lemma_rows_of_inside(all, province, k);
        }
    }
    let order = order_cities(&picked);
    let mut cities: Vec<CityLit> = Vec::new();
    for i in 0..order.len()
        invariant
            sel == picked@.map_values(|r: &VisitedCity| *r),
            forall|k: int| 0 <= k < sel.len() ==> in_province(#[trigger] sel[k], province),
            crate::backup::is_permutation_of(order@, picked@.len() as int),
            cities@.len() == i,
            forall|k: int| 0 <= k < i ==> shows_city(#[trigger] cities@[k], sel[order@[k] as int]),
    {
        let row = picked[order[i]];
        assert(*row == sel[order@[i as int] as int]);
        match &row.entry {
            Some(e) => {
                cities.push(
                    CityLit {
                        name: string_of(&chars_of(row.city.as_str())),
                        map_name: string_of(&chars_of(e.official.as_str())),
                        adcode: e.adcode,
                        visits: row.visits,
                        first_at: row.first_at,
                        last_at: row.last_at,
                    },
                );
            },
            None => {
                assert(in_province(sel[order@[i as int] as int], province));
                assert(false);
            },
        }
    }
    let name = province_name(names, province);
    CityMapResponse { province, name, cities }
}

proof fn lemma_rows_of_inside(rows: Seq<VisitedCity>, p: u32, k: int)
    requires
        0 <= k < rows_of(rows, p).len(),
    ensures
        in_province(rows_of(rows, p)[k], p),
    decreases rows.len(),
{
    if rows.len() > 0 {
        let prev = rows_of(rows.drop_last(), p);
        if in_province(rows.last(), p) && k == prev.len() {
        } else {
            lemma_rows_of_inside(rows.drop_last(), p, k);
        }
    }
}

} // verus!
