//! Importing events from a data source.
//!
//! The source itself (a database, a file) lives outside the library; it
//! hands events over as plain `(date, times)` pairs through the [`Import`]
//! trait, and [`YearData::from`] folds them into a store.

use vstd::prelude::*;

use crate::calendar::Date;
use crate::error::Error;
use crate::stat::{store_insert_all, YearData};

verus! {

/// A source of dated events.  Implementations live outside the library
/// (the SQLite reader of the command-line tool is one); they promise only
/// that every date handed over is well-formed.
pub trait Import: Sized {
    /// Every event of the source as a `(date, times)` pair.  Dates may
    /// repeat, with the same or different `times` values.
    fn all_datas(self) -> (r: Result<Vec<(Date, u32)>, Error>)
        ensures
            r matches Ok(v) ==> forall|i: int| 0 <= i < v@.len() ==> (#[trigger] v@[i]).0.wf(),
    ;
}

impl YearData {
    /// Builds a store holding every event of the importer.  The store's
    /// content is `store_insert_all` of what the importer handed over,
    /// which `add_all` guarantees; here nothing more can be promised,
    /// since the events are whatever the source yields.
    pub fn from<I: Import>(other: I) -> (r: Result<YearData, Error>)
        ensures
            r matches Ok(yd) ==> yd.wf(),
    {
        let items: Vec<(Date, u32)> = match other.all_datas() {
            Ok(v) => v,
            Err(e) => {
                return Err(e);
            },
        };
        let mut me: YearData = YearData::new();
        me.add_all(&items);
        proof {
            assert(me@ == store_insert_all(Map::<i32, Map<u32, u32>>::empty(), items@));
        }
        Ok(me)
    }
}

} // verus!
