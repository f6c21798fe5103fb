//! What is done with the rows of a query's result: each is read into a record,
//! and the related pairs of a traversal are handed to a sink one by one, in the
//! order in which the backend returned them.

use crate::error::DriverError;
use crate::error::Error;
use crate::record::related_failure;
use crate::record::Entity;
use crate::record::Hierarchy;
use crate::record::Related;
use crate::row::Row;
use vstd::prelude::*;

verus! {

/// The error that a pair was refused with, or `None` where it was taken.
pub open spec fn refusal(outcome: Result<(), DriverError>) -> Option<DriverError> {
    match outcome {
        Ok(_) => None,
        Err(e) => Some(e),
    }
}

/// Where the related pairs of a traversal go. A sink keeps account of every
/// pair that was handed to it, in the order in which they came, each with the
/// error that it was refused with, if it was.
pub trait RelatedSink {
    /// The sink can be handed a pair.
    spec fn ready(&self) -> bool;

    /// Every pair handed over so far, first to last, with its refusal.
    spec fn handed(&self) -> Seq<(Related, Option<DriverError>)>;

    /// Takes a pair, or refuses it with an error.
    fn take(&mut self, record: Related) -> (r: Result<(), DriverError>)
        requires
            old(self).ready(),
        ensures
            final(self).ready(),
            final(self).handed() == old(self).handed().push((record, refusal(r))),
    ;
}

/// A list takes every pair and keeps it.
impl RelatedSink for Vec<Related> {
    open spec fn ready(&self) -> bool {
        true
    }

    open spec fn handed(&self) -> Seq<(Related, Option<DriverError>)> {
        Seq::new(self@.len(), |i: int| (self@[i], None::<DriverError>))
    }

    fn take(&mut self, record: Related) -> (r: Result<(), DriverError>) {
        self.push(record);
        assert(self.handed() =~= old(self).handed().push((record, None::<DriverError>)));
        Ok(())
    }
}

/// A sink that hands each pair to a callback, once, and refuses what the
/// callback refuses.
pub struct Callback<F: FnMut(Related) -> Result<(), DriverError>> {
    on_row: F,
    handed: Ghost<Seq<(Related, Option<DriverError>)>>,
}

impl<F: FnMut(Related) -> Result<(), DriverError>> Callback<F> {
    /// The callback that the pairs go to.
    pub closed spec fn callback(&self) -> F {
        self.on_row
    }

    /// A sink for the callback, to which nothing was handed yet.
    pub fn new(on_row: F) -> (r: Self)
        requires
            forall|record: Related| call_requires(on_row, (record,)),
        ensures
            r.ready(),
            r.callback() == on_row,
            r.handed().len() == 0,
    {
        Callback { on_row, handed: Ghost(Seq::empty()) }
    }
}

impl<F: FnMut(Related) -> Result<(), DriverError>> RelatedSink for Callback<F> {
    closed spec fn ready(&self) -> bool {
        forall|record: Related| call_requires(self.on_row, (record,))
    }

    closed spec fn handed(&self) -> Seq<(Related, Option<DriverError>)> {
        self.handed@
    }

    /// Calls the callback with the pair, once, and returns what it returned.
    fn take(&mut self, record: Related) -> (r: Result<(), DriverError>)
        ensures
            final(self).callback() == old(self).callback(),
            call_ensures(old(self).callback(), (record,), r),
    {
        let ghost given = record;
        let r = (self.on_row)(record);
        self.handed = Ghost(self.handed@.push((given, refusal(r))));
        r
    }
}

/// The pairs are those of the first `n` rows, one for each row and in the
/// order of the rows, and each was taken.
pub open spec fn all_taken(
    pairs: Seq<(Related, Option<DriverError>)>,
    rows: Seq<Row>,
    n: int,
) -> bool {
    &&& pairs.len() == n
    &&& forall|i: int| 0 <= i < n ==> (#[trigger] pairs[i]).0.reads(rows[i]) && pairs[i].1 is None
}

/// A delivery that ended at row `n` with this error, having handed over these
/// pairs. Either the row could not be read into a pair: then the pairs are
/// those of the rows before it, all taken, and the error tells the column.
/// Or the row's pair was refused: then it is the last pair handed over, after
/// those of the rows before it, and the error is the one it was refused with.
pub open spec fn stopped_at(
    pairs: Seq<(Related, Option<DriverError>)>,
    rows: Seq<Row>,
    n: int,
    error: Error,
) -> bool {
    match related_failure(rows[n]) {
        Some((column, failure)) => {
            &&& all_taken(pairs, rows, n)
            &&& error matches Error::Decode(e)
            &&& e.column@ == column
            &&& e.failure == failure
        },
        None => {
            &&& pairs.len() == n + 1
            &&& all_taken(pairs.take(n), rows, n)
            &&& pairs[n].0.reads(rows[n])
            &&& error matches Error::Driver(e)
            &&& pairs[n].1 == Some(e)
        },
    }
}

/// What a delivery of these rows handed over, and how it ended: with every
/// row's pair taken, or at the first row that could not be read or whose pair
/// was refused. No pair of a later row was handed over.
pub open spec fn delivery(
    pairs: Seq<(Related, Option<DriverError>)>,
    rows: Seq<Row>,
    outcome: Result<(), Error>,
) -> bool {
    match outcome {
        Ok(_) => all_taken(pairs, rows, rows.len() as int),
        Err(error) => exists|n: int| 0 <= n < rows.len() && #[trigger] stopped_at(pairs, rows, n, error),
    }
}

/// What one row adds to the pairs handed over, and how that ended. A row that
/// cannot be read adds nothing; any other row adds its pair, once.
pub open spec fn step(
    before: Seq<(Related, Option<DriverError>)>,
    after: Seq<(Related, Option<DriverError>)>,
    row: Row,
    outcome: Result<(), Error>,
) -> bool {
    match related_failure(row) {
        Some((column, failure)) => {
            &&& after == before
            &&& outcome matches Err(Error::Decode(e))
            &&& e.column@ == column
            &&& e.failure == failure
        },
        None => {
            &&& after.len() == before.len() + 1
            &&& after.drop_last() == before
            &&& after.last().0.reads(row)
            &&& match after.last().1 {
                None => outcome is Ok,
                Some(e) => outcome matches Err(Error::Driver(d)) && d == e,
            }
        },
    }
}

/// Reads one row of a traversal into a related pair and hands it to the sink.
/// A row that cannot be read is not handed on.
pub fn deliver_row<S: RelatedSink>(row: &Row, sink: &mut S) -> (r: Result<(), Error>)
    requires
        old(sink).ready(),
    ensures
        final(sink).ready(),
        step(old(sink).handed(), final(sink).handed(), *row, r),
{
    match Related::from(row) {
        Err(e) => Err(Error::Decode(e)),
        Ok(record) => {
            let ghost before = sink.handed();
            let r = sink.take(record);
            assert(sink.handed().drop_last() =~= before);
            match r {
                Ok(_) => Ok(()),
                Err(e) => Err(Error::Driver(e)),
            }
        },
    }
}

/// Goes on with a delivery: where it has ended already, the row is passed
/// over and the sink is left alone; otherwise the row is delivered as
/// `deliver_row` does.
pub fn deliver_next<S: RelatedSink>(so_far: Result<(), Error>, row: &Row, sink: &mut S) -> (r: Result<(), Error>)
    requires
        old(sink).ready(),
    ensures
        final(sink).ready(),
        so_far is Err ==> r == so_far && final(sink).handed() == old(sink).handed(),
        so_far is Ok ==> step(old(sink).handed(), final(sink).handed(), *row, r),
{
    match so_far {
        Err(e) => Err(e),
        Ok(_) => deliver_row(row, sink),
    }
}

/// Hands the related pairs of a traversal to the sink, one for each row and in
/// the order of the rows. It ends at the first row that cannot be read into a
/// related pair, and at the first pair that the sink refuses; no later row is
/// read or handed on. What the sink held before stays in front.
pub fn deliver_related<S: RelatedSink>(rows: &Vec<Row>, sink: &mut S) -> (r: Result<(), Error>)
    requires
        old(sink).ready(),
    ensures
        final(sink).ready(),
        old(sink).handed().len() <= final(sink).handed().len(),
        final(sink).handed().take(old(sink).handed().len() as int) == old(sink).handed(),
        delivery(final(sink).handed().skip(old(sink).handed().len() as int), rows@, r),
{
    let ghost held = sink.handed();
    let ghost base = held.len() as int;
    let mut i: usize = 0;
    assert(sink.handed().take(base) =~= held);
    while i < rows.len()
        invariant
            i <= rows@.len(),
            sink.ready(),
            held == old(sink).handed(),
            base == held.len(),
            sink.handed().len() == base + i,
            sink.handed().take(base) == held,
            all_taken(sink.handed().skip(base), rows@, i as int),
        decreases rows@.len() - i,
    {
        let ghost before = sink.handed();
        let r = deliver_row(&rows[i], sink);
        let ghost after = sink.handed();
        proof {
            let new = after.skip(base);
            if related_failure(rows@[i as int]) is Some {
                assert(new =~= before.skip(base));
            } else {
                assert(after.take(base) =~= before.take(base));
                assert(after.drop_last() == before);
                assert(after.take(base) =~= before.take(base));
                assert(new.take(i as int) =~= before.skip(base));
                assert(new[i as int] == after.last());
                if r is Ok {
                    assert(all_taken(new, rows@, i + 1)) by {
                        assert forall|j: int| 0 <= j < i + 1 implies (#[trigger] new[j]).0.reads(
                            rows@[j],
                        ) && new[j].1 is None by {
                            if j < i {
                                assert(new[j] == before.skip(base)[j]);
                            }
                        }
                    }
                }
            }
        }
        match r {
            Err(error) => {
                assert(stopped_at(sink.handed().skip(base), rows@, i as int, error));
                return Err(error);
            },
            Ok(_) => {},
        }
        i += 1;
    }
    Ok(())
}

/// Reads every row into a node of the hierarchy, in the order of the rows.
pub fn hierarchies(rows: &Vec<Row>) -> (r: Vec<Hierarchy>)
    ensures
        r@.len() == rows@.len(),
        forall|i: int| 0 <= i < rows@.len() ==> (#[trigger] r@[i]).reads(rows@[i]),
{
    let mut out: Vec<Hierarchy> = Vec::new();
    let mut i: usize = 0;
    while i < rows.len()
        invariant
            i <= rows@.len(),
            out@.len() == i,
            forall|j: int| 0 <= j < i ==> (#[trigger] out@[j]).reads(rows@[j]),
        decreases rows@.len() - i,
    {
        out.push(Hierarchy::from(&rows[i]));
        i += 1;
    }
    out
}

/// Reads every row into an entity, in the order of the rows.
pub fn entities(rows: &Vec<Row>) -> (r: Vec<Entity>)
    ensures
        r@.len() == rows@.len(),
        forall|i: int| 0 <= i < rows@.len() ==> (#[trigger] r@[i]).reads(rows@[i]),
{
    let mut out: Vec<Entity> = Vec::new();
    let mut i: usize = 0;
    while i < rows.len()
        invariant
            i <= rows@.len(),
            out@.len() == i,
            forall|j: int| 0 <= j < i ==> (#[trigger] out@[j]).reads(rows@[j]),
        decreases rows@.len() - i,
    {
        out.push(Entity::from(&rows[i]));
        i += 1;
    }
    out
}

} // verus!
