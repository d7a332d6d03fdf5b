//! The year store: per-day event counts aggregated by year.
//!
//! `DaysData` maps 0-based day-of-year ordinals to counts for one year;
//! `YearData` maps years to their `DaysData`.  Both are kept as vectors of
//! pairs with strictly ascending keys, and are specified through `Map`
//! views.  Stored counts are never zero, and adding saturates at
//! `u32::MAX`.

use vstd::prelude::*;

use crate::calendar::Date;

verus! {

/// `u32` addition that saturates at `u32::MAX`.
pub open spec fn sat_add_u32(a: int, b: int) -> int {
    if a + b > u32::MAX { u32::MAX as int } else { a + b }
}

/// The count mapping held by a `(ordinal, count)` association list.
/// A later entry with the same key would win, but the lists of this module
/// keep their keys distinct.
pub open spec fn days_map(s: Seq<(u32, u32)>) -> Map<u32, u32>
    decreases s.len(),
{
    if s.len() == 0 {
        Map::empty()
    } else {
        days_map(s.drop_last()).insert(s.last().0, s.last().1)
    }
}

/// The count paired with `k` in `s`, scanning from the back.
pub open spec fn days_find(s: Seq<(u32, u32)>, k: u32) -> Option<u32>
    decreases s.len(),
{
    if s.len() == 0 {
        None
    } else if s.last().0 == k {
        Some(s.last().1)
    } else {
        days_find(s.drop_last(), k)
    }
}

/// `days_map` agrees with `days_find`.
proof fn lemma_days_find(s: Seq<(u32, u32)>, k: u32)
    ensures
        days_map(s).dom().contains(k) == (days_find(s, k) is Some),
        days_find(s, k) matches Some(v) ==> days_map(s)[k] == v,
    decreases s.len(),
{
    if s.len() > 0 {
        lemma_days_find(s.drop_last(), k);
    }
}

/// Replacing the entry at `i` (same key) updates the map at that key.
proof fn lemma_days_map_update(s: Seq<(u32, u32)>, i: int, e: (u32, u32))
    requires
        0 <= i < s.len(),
        s[i].0 == e.0,
        forall|j: int| 0 <= j < s.len() && j != i ==> (#[trigger] s[j]).0 != e.0,
    ensures
        days_map(s.update(i, e)) == days_map(s).insert(e.0, e.1),
    decreases s.len(),
{
    let su = s.update(i, e);
    if i == s.len() - 1 {
        assert(su.drop_last() =~= s.drop_last());
        assert(days_map(s.drop_last()).insert(e.0, e.1) =~= days_map(s.drop_last()).insert(
            s.last().0,
            s.last().1,
        ).insert(e.0, e.1));
    } else {
        assert(su.drop_last() =~= s.drop_last().update(i, e));
        lemma_days_map_update(s.drop_last(), i, e);
        assert(su.last() == s.last());
        assert(s.last().0 != e.0);
        assert(days_map(s.drop_last()).insert(e.0, e.1).insert(s.last().0, s.last().1)
            =~= days_map(s.drop_last()).insert(s.last().0, s.last().1).insert(e.0, e.1));
    }
}

/// Inserting an entry with a fresh key inserts into the map.
proof fn lemma_days_map_insert(s: Seq<(u32, u32)>, i: int, e: (u32, u32))
    requires
        0 <= i <= s.len(),
        forall|j: int| 0 <= j < s.len() ==> (#[trigger] s[j]).0 != e.0,
    ensures
        days_map(s.insert(i, e)) == days_map(s).insert(e.0, e.1),
    decreases s.len(),
{
    let si = s.insert(i, e);
    if i == s.len() {
        assert(si.last() == e);
        assert(si.drop_last() =~= s);
    } else {
        assert(si.last() == s.last());
        assert(si.drop_last() =~= s.drop_last().insert(i, e));
        lemma_days_map_insert(s.drop_last(), i, e);
        assert(s.last().0 != e.0);
        assert(days_map(s.drop_last()).insert(e.0, e.1).insert(s.last().0, s.last().1)
            =~= days_map(s.drop_last()).insert(s.last().0, s.last().1).insert(e.0, e.1));
    }
}

/// A key that no entry carries is not found.
proof fn lemma_days_find_absent(s: Seq<(u32, u32)>, k: u32)
    requires
        forall|j: int| 0 <= j < s.len() ==> (#[trigger] s[j]).0 != k,
    ensures
        days_find(s, k) is None,
    decreases s.len(),
{
    if s.len() > 0 {
        lemma_days_find_absent(s.drop_last(), k);
    }
}

/// A key that no entry carries is not found.
proof fn lemma_years_find_absent(s: Seq<(i32, DaysData)>, k: i32)
    requires
        forall|j: int| 0 <= j < s.len() ==> (#[trigger] s[j]).0 != k,
    ensures
        years_find(s, k) is None,
    decreases s.len(),
{
    if s.len() > 0 {
        lemma_years_find_absent(s.drop_last(), k);
    }
}

/// In a list with distinct keys, the map value at the key of entry `i` is
/// that entry's count.
proof fn lemma_days_val_at(s: Seq<(u32, u32)>, i: int)
    requires
        0 <= i < s.len(),
        forall|j: int| 0 <= j < s.len() && j != i ==> (#[trigger] s[j]).0 != s[i].0,
    ensures
        days_map(s).dom().contains(s[i].0),
        days_map(s)[s[i].0] == s[i].1,
    decreases s.len(),
{
    if i < s.len() - 1 {
        lemma_days_val_at(s.drop_last(), i);
    }
}

/// One year of data: a mapping from 0-based day-of-year ordinals to counts.
#[derive(Debug)]
pub struct DaysData {
    /// The year these counts belong to.
    pub year: i32,
    /// `(ordinal, count)` pairs, keys strictly ascending, counts >= 1.
    pub data: Vec<(u32, u32)>,
}

impl View for DaysData {
    type V = Map<u32, u32>;

    closed spec fn view(&self) -> Map<u32, u32> {
        days_map(self.data@)
    }
}

impl DaysData {
    /// Representation invariant: keys strictly ascending, counts >= 1.
    pub closed spec fn wf(&self) -> bool {
        &&& forall|i: int, j: int|
            0 <= i < j < self.data@.len() ==> (#[trigger] self.data@[i]).0 < (
            #[trigger] self.data@[j]).0
        &&& forall|i: int| 0 <= i < self.data@.len() ==> (#[trigger] self.data@[i]).1 >= 1
    }

    /// An empty store for `year`.
    pub fn new(year: i32) -> (r: DaysData)
        ensures
            r.wf(),
            r.year == year,
            r@ == Map::<u32, u32>::empty(),
    {
        DaysData { year, data: Vec::new() }
    }

    /// The count stored for day `day`, if any.
    pub fn get(&self, day: u32) -> (r: Option<u32>)
        ensures
            r == (if self@.dom().contains(day) {
                Some(self@[day])
            } else {
                None::<u32>
            }),
    {
        proof {
            lemma_days_find(self.data@, day);
            assert(self.data@.take(self.data@.len() as int) =~= self.data@);
        }
        let n: usize = self.data.len();
        let mut i: usize = n;
        while i > 0
            invariant
                i <= n,
                n == self.data@.len(),
                days_find(self.data@.take(i as int), day) == days_find(self.data@, day),
            decreases i,
        {
            let pair: (u32, u32) = self.data[i - 1];
            proof {
                assert(self.data@.take(i as int).last() == self.data@[i - 1]);
                assert(self.data@.take(i as int).drop_last() =~= self.data@.take(i - 1));
            }
            if pair.0 == day {
                return Some(pair.1);
            }
            i = i - 1;
        }
        proof {
            assert(self.data@.take(0) =~= Seq::<(u32, u32)>::empty());
        }
        None
    }

    /// Records `times` further events on day `day` (0-based ordinal) and
    /// returns the day's new total.  `times == 0` is treated as one event;
    /// the total saturates at `u32::MAX`.
    pub fn add(&mut self, day: u32, times: u32) -> (total: u32)
        requires
            old(self).wf(),
        ensures
            final(self).wf(),
            final(self).year == old(self).year,
            total as int == sat_add_u32(
                if old(self)@.dom().contains(day) {
                    old(self)@[day] as int
                } else {
                    0
                },
                if times == 0 {
                    1int
                } else {
                    times as int
                },
            ),
            final(self)@ == old(self)@.insert(day, total),
            total >= 1,
    {
        let times: u32 = if times == 0 { 1 } else { times };
        let n: usize = self.data.len();
        let mut i: usize = 0;
        while i < n && self.data[i].0 < day
            invariant
                i <= n,
                n == self.data@.len(),
                self == old(self),
                forall|j: int| 0 <= j < i ==> (#[trigger] self.data@[j]).0 < day,
            decreases n - i,
        {
            i = i + 1;
        }
        if i < n && self.data[i].0 == day {
            proof {
                assert(forall|j: int|
                    0 <= j < self.data@.len() && j != i ==> (#[trigger] self.data@[j]).0 != day);
                lemma_days_val_at(self.data@, i as int);
            }
            let total: u32 = self.data[i].1.saturating_add(times);
            proof {
                lemma_days_map_update(self.data@, i as int, (day, total));
            }
            self.data.set(i, (day, total));
            total
        } else {
            proof {
                assert(forall|j: int|
                    i <= j < self.data@.len() ==> day <= (#[trigger] self.data@[j]).0) by {
                    assert(forall|j: int|
                        i < j < self.data@.len() ==> (#[trigger] self.data@[j]).0
                            > self.data@[i as int].0);
                };
                assert(forall|j: int|
                    0 <= j < self.data@.len() ==> (#[trigger] self.data@[j]).0 != day);
                lemma_days_find(self.data@, day);
                lemma_days_find_absent(self.data@, day);
                lemma_days_map_insert(self.data@, i as int, (day, times));
            }
            let total: u32 = times;
            self.data.insert(i, (day, total));
            proof {
                let s0 = old(self).data@;
                let s1 = self.data@;
                assert(forall|a: int, b: int|
                    0 <= a < b < s1.len() ==> (#[trigger] s1[a]).0 < (#[trigger] s1[b]).0) by {
                    assert(forall|a: int| 0 <= a < i ==> #[trigger] s1[a] == s0[a]);
                    assert(forall|a: int| i < a < s1.len() ==> #[trigger] s1[a] == s0[a - 1]);
                };
            }
            total
        }
    }
}

/// The year mapping held by a `(year, DaysData)` association list, with the
/// children abstracted to their own count mappings.
pub open spec fn years_map(s: Seq<(i32, DaysData)>) -> Map<i32, Map<u32, u32>>
    decreases s.len(),
{
    if s.len() == 0 {
        Map::empty()
    } else {
        years_map(s.drop_last()).insert(s.last().0, s.last().1@)
    }
}

/// The child paired with `k` in `s`, scanning from the back.
pub open spec fn years_find(s: Seq<(i32, DaysData)>, k: i32) -> Option<DaysData>
    decreases s.len(),
{
    if s.len() == 0 {
        None
    } else if s.last().0 == k {
        Some(s.last().1)
    } else {
        years_find(s.drop_last(), k)
    }
}

/// `years_map` agrees with `years_find`.
proof fn lemma_years_find(s: Seq<(i32, DaysData)>, k: i32)
    ensures
        years_map(s).dom().contains(k) == (years_find(s, k) is Some),
        years_find(s, k) matches Some(v) ==> years_map(s)[k] == v@,
    decreases s.len(),
{
    if s.len() > 0 {
        lemma_years_find(s.drop_last(), k);
    }
}

/// Replacing the entry at `i` (same key) updates the map at that key.
proof fn lemma_years_map_update(s: Seq<(i32, DaysData)>, i: int, e: (i32, DaysData))
    requires
        0 <= i < s.len(),
        s[i].0 == e.0,
        forall|j: int| 0 <= j < s.len() && j != i ==> (#[trigger] s[j]).0 != e.0,
    ensures
        years_map(s.update(i, e)) == years_map(s).insert(e.0, e.1@),
    decreases s.len(),
{
    let su = s.update(i, e);
    if i == s.len() - 1 {
        assert(su.drop_last() =~= s.drop_last());
        assert(years_map(s.drop_last()).insert(e.0, e.1@) =~= years_map(s.drop_last()).insert(
            s.last().0,
            s.last().1@,
        ).insert(e.0, e.1@));
    } else {
        assert(su.drop_last() =~= s.drop_last().update(i, e));
        lemma_years_map_update(s.drop_last(), i, e);
        assert(su.last() == s.last());
        assert(s.last().0 != e.0);
        assert(years_map(s.drop_last()).insert(e.0, e.1@).insert(s.last().0, s.last().1@)
            =~= years_map(s.drop_last()).insert(s.last().0, s.last().1@).insert(e.0, e.1@));
    }
}

/// Inserting an entry with a fresh key inserts into the map.
proof fn lemma_years_map_insert(s: Seq<(i32, DaysData)>, i: int, e: (i32, DaysData))
    requires
        0 <= i <= s.len(),
        forall|j: int| 0 <= j < s.len() ==> (#[trigger] s[j]).0 != e.0,
    ensures
        years_map(s.insert(i, e)) == years_map(s).insert(e.0, e.1@),
    decreases s.len(),
{
    let si = s.insert(i, e);
    if i == s.len() {
        assert(si.last() == e);
        assert(si.drop_last() =~= s);
    } else {
        assert(si.last() == s.last());
        assert(si.drop_last() =~= s.drop_last().insert(i, e));
        lemma_years_map_insert(s.drop_last(), i, e);
        assert(s.last().0 != e.0);
        assert(years_map(s.drop_last()).insert(e.0, e.1@).insert(s.last().0, s.last().1@)
            =~= years_map(s.drop_last()).insert(s.last().0, s.last().1@).insert(e.0, e.1@));
    }
}

/// In a list with distinct keys, the map value at the key of entry `i` is
/// that entry's child mapping.
proof fn lemma_years_val_at(s: Seq<(i32, DaysData)>, i: int)
    requires
        0 <= i < s.len(),
        forall|j: int| 0 <= j < s.len() && j != i ==> (#[trigger] s[j]).0 != s[i].0,
    ensures
        years_map(s).dom().contains(s[i].0),
        years_map(s)[s[i].0] == s[i].1@,
    decreases s.len(),
{
    if i < s.len() - 1 {
        lemma_years_val_at(s.drop_last(), i);
    }
}

/// The keys of the association list are the domain of its map.
proof fn lemma_years_dom(s: Seq<(i32, DaysData)>)
    ensures
        forall|i: int| 0 <= i < s.len() ==> years_map(s).dom().contains((#[trigger] s[i]).0),
        forall|y: i32|
            years_map(s).dom().contains(y) ==> exists|i: int|
                0 <= i < s.len() && (#[trigger] s[i]).0 == y,
    decreases s.len(),
{
    if s.len() > 0 {
        let pre = s.drop_last();
        lemma_years_dom(pre);
        assert(forall|i: int| 0 <= i < s.len() - 1 ==> #[trigger] s[i] == pre[i]);
        assert forall|y: i32| years_map(s).dom().contains(y) implies exists|i: int|
            0 <= i < s.len() && (#[trigger] s[i]).0 == y by {
            if y == s.last().0 {
                assert(s[s.len() - 1].0 == y);
            } else {
                assert(years_map(pre).dom().contains(y));
                let i = choose|i: int| 0 <= i < pre.len() && (#[trigger] pre[i]).0 == y;
                assert(s[i].0 == y);
            }
        };
    }
}

/// The whole dataset: per-day counts for every year that has events.
#[derive(Debug)]
pub struct YearData {
    /// `(year, counts)` pairs, years strictly ascending, each child tagged
    /// with its own year.
    pub data: Vec<(i32, DaysData)>,
}

impl View for YearData {
    type V = Map<i32, Map<u32, u32>>;

    closed spec fn view(&self) -> Map<i32, Map<u32, u32>> {
        years_map(self.data@)
    }
}

/// The store after recording one `(date, times)` event batch.
pub open spec fn store_insert(
    m: Map<i32, Map<u32, u32>>,
    date: Date,
    times: u32,
) -> Map<i32, Map<u32, u32>> {
    let day = date.ordinal0_spec() as u32;
    let yearly = if m.dom().contains(date.year) {
        m[date.year]
    } else {
        Map::empty()
    };
    let prev = if yearly.dom().contains(day) {
        yearly[day] as int
    } else {
        0
    };
    let t = if times == 0 {
        1int
    } else {
        times as int
    };
    m.insert(date.year, yearly.insert(day, sat_add_u32(prev, t) as u32))
}

/// The store after recording every event of `items` in order.
pub open spec fn store_insert_all(
    m: Map<i32, Map<u32, u32>>,
    items: Seq<(Date, u32)>,
) -> Map<i32, Map<u32, u32>>
    decreases items.len(),
{
    if items.len() == 0 {
        m
    } else {
        store_insert_all(store_insert(m, items[0].0, items[0].1), items.drop_first())
    }
}

impl YearData {
    /// Representation invariant: years strictly ascending and in range,
    /// children sound.
    pub closed spec fn wf(&self) -> bool {
        &&& forall|i: int, j: int|
            0 <= i < j < self.data@.len() ==> (#[trigger] self.data@[i]).0 < (
            #[trigger] self.data@[j]).0
        &&& forall|i: int|
            0 <= i < self.data@.len() ==> (#[trigger] self.data@[i]).1.wf() && self.data@[i].1.year
                == self.data@[i].0 && crate::calendar::MIN_YEAR <= self.data@[i].0
                <= crate::calendar::MAX_YEAR
    }

    /// An empty store.
    pub fn new() -> (r: YearData)
        ensures
            r.wf(),
            r@ == Map::<i32, Map<u32, u32>>::empty(),
    {
        YearData { data: Vec::new() }
    }

    /// The years present in the store, in strictly ascending order.
    pub closed spec fn years_seq(&self) -> Seq<i32> {
        self.data@.map_values(|p: (i32, DaysData)| p.0)
    }

    /// The years present in the store, ascending.  They are exactly the
    /// domain of the store's mapping.
    pub fn years(&self) -> (r: Vec<i32>)
        requires
            self.wf(),
        ensures
            r@ == self.years_seq(),
            forall|a: int, b: int| 0 <= a < b < r@.len() ==> r@[a] < r@[b],
            forall|a: int| 0 <= a < r@.len() ==> self@.dom().contains(#[trigger] r@[a]),
            forall|a: int|
                0 <= a < r@.len() ==> crate::calendar::MIN_YEAR <= #[trigger] r@[a]
                    <= crate::calendar::MAX_YEAR,
            forall|y: i32| self@.dom().contains(y) ==> r@.contains(y),
    {
        let n: usize = self.data.len();
        let mut r: Vec<i32> = Vec::new();
        let mut i: usize = 0;
        while i < n
            invariant
                i <= n,
                n == self.data@.len(),
                r@ =~= self.years_seq().take(i as int),
            decreases n - i,
        {
            let y: i32 = self.data[i].0;
            r.push(y);
            proof {
                assert(r@ =~= self.years_seq().take(i + 1));
            }
            i = i + 1;
        }
        proof {
            assert(r@ =~= self.years_seq());
            lemma_years_dom(self.data@);
            assert forall|y: i32| self@.dom().contains(y) implies r@.contains(y) by {
                let i = choose|i: int| 0 <= i < self.data@.len() && (#[trigger] self.data@[i]).0 == y;
                assert(r@[i] == y);
            };
        }
        r
    }

    /// The stored data of `year`, if the year is present.
    pub fn get_year(&self, year: i32) -> (r: Option<&DaysData>)
        requires
            self.wf(),
        ensures
            match r {
                Some(dd) => {
                    &&& self@.dom().contains(year)
                    &&& dd@ == self@[year]
                    &&& dd.wf()
                    &&& dd.year == year
                    &&& crate::calendar::MIN_YEAR <= year <= crate::calendar::MAX_YEAR
                },
                None => !self@.dom().contains(year),
            },
    {
        proof {
            lemma_years_find(self.data@, year);
            assert(self.data@.take(self.data@.len() as int) =~= self.data@);
        }
        let n: usize = self.data.len();
        let mut i: usize = n;
        while i > 0
            invariant
                i <= n,
                n == self.data@.len(),
                self.wf(),
                years_find(self.data@.take(i as int), year) == years_find(self.data@, year),
            decreases i,
        {
            proof {
                assert(self.data@.take(i as int).last() == self.data@[i - 1]);
                assert(self.data@.take(i as int).drop_last() =~= self.data@.take(i - 1));
            }
            if self.data[i - 1].0 == year {
                return Some(&self.data[i - 1].1);
            }
            i = i - 1;
        }
        proof {
            assert(self.data@.take(0) =~= Seq::<(i32, DaysData)>::empty());
        }
        None
    }

    /// Records `times` further events on `date` and returns the new total
    /// for that day.  `times == 0` is treated as one event; the total
    /// saturates at `u32::MAX`.
    pub fn add(&mut self, date: Date, times: u32) -> (total: u32)
        requires
            old(self).wf(),
            date.wf(),
        ensures
            final(self).wf(),
            final(self)@ == store_insert(old(self)@, date, times),
            total >= 1,
            final(self)@[date.year][date.ordinal0_spec() as u32] == total,
    {
        let day: u32 = date.ordinal0();
        let year: i32 = date.year;
        let n: usize = self.data.len();
        let mut i: usize = 0;
        while i < n && self.data[i].0 < year
            invariant
                i <= n,
                n == self.data@.len(),
                self == old(self),
                forall|j: int| 0 <= j < i ==> (#[trigger] self.data@[j]).0 < year,
            decreases n - i,
        {
            i = i + 1;
        }
        if i < n && self.data[i].0 == year {
            proof {
                assert(forall|j: int|
                    0 <= j < self.data@.len() && j != i ==> (#[trigger] self.data@[j]).0 != year);
                lemma_years_val_at(self.data@, i as int);
            }
            let mut pair: (i32, DaysData) = self.data.remove(i);
            let total: u32 = pair.1.add(day, times);
            self.data.insert(i, pair);
            proof {
                assert(self.data@ =~= old(self).data@.update(i as int, self.data@[i as int]));
                lemma_years_map_update(old(self).data@, i as int, self.data@[i as int]);
            }
            total
        } else {
            proof {
                assert(forall|j: int|
                    i <= j < self.data@.len() ==> year <= (#[trigger] self.data@[j]).0) by {
                    assert(forall|j: int|
                        i < j < self.data@.len() ==> (#[trigger] self.data@[j]).0
                            > self.data@[i as int].0);
                };
                assert(forall|j: int|
                    0 <= j < self.data@.len() ==> (#[trigger] self.data@[j]).0 != year);
                lemma_years_find(self.data@, year);
                lemma_years_find_absent(self.data@, year);
            }
            let mut dd: DaysData = DaysData::new(year);
            let total: u32 = dd.add(day, times);
            proof {
                lemma_years_map_insert(old(self).data@, i as int, (year, dd));
                assert(Map::<u32, u32>::empty().insert(day, total) =~= dd@);
            }
            self.data.insert(i, (year, dd));
            proof {
                let s0 = old(self).data@;
                let s1 = self.data@;
                assert(forall|a: int, b: int|
                    0 <= a < b < s1.len() ==> (#[trigger] s1[a]).0 < (#[trigger] s1[b]).0) by {
                    assert(forall|a: int| 0 <= a < i ==> #[trigger] s1[a] == s0[a]);
                    assert(forall|a: int| i < a < s1.len() ==> #[trigger] s1[a] == s0[a - 1]);
                };
            }
            total
        }
    }

    /// Records every event of `items` in order.
    pub fn add_all(&mut self, items: &Vec<(Date, u32)>)
        requires
            old(self).wf(),
            forall|i: int| 0 <= i < items@.len() ==> (#[trigger] items@[i]).0.wf(),
        ensures
            final(self).wf(),
            final(self)@ == store_insert_all(old(self)@, items@),
    {
        proof {
            assert(items@.skip(0) =~= items@);
        }
        let n: usize = items.len();
        let mut i: usize = 0;
        while i < n
            invariant
                i <= n,
                n == items@.len(),
                self.wf(),
                forall|j: int| 0 <= j < items@.len() ==> (#[trigger] items@[j]).0.wf(),
                store_insert_all(self@, items@.skip(i as int)) == store_insert_all(
                    old(self)@,
                    items@,
                ),
            decreases n - i,
        {
            let pair: (Date, u32) = items[i];
            proof {
                assert(items@.skip(i as int)[0] == items@[i as int]);
                assert(items@.skip(i as int).drop_first() =~= items@.skip(i + 1));
            }
            self.add(pair.0, pair.1);
            i = i + 1;
        }
        proof {
            assert(items@.skip(n as int) =~= Seq::<(Date, u32)>::empty());
        }
    }
}

/// Law: recording the same date twice, one event each time, on a store
/// that had no events for that day yet, leaves that day with a count of 2.
pub proof fn lemma_add_twice(m: Map<i32, Map<u32, u32>>, date: Date)
    requires
        date.wf(),
        m.dom().contains(date.year) ==> !m[date.year].dom().contains(
            date.ordinal0_spec() as u32,
        ),
    ensures
        store_insert(store_insert(m, date, 1), date, 1)[date.year][date.ordinal0_spec() as u32]
            == 2,
{
}

} // verus!
